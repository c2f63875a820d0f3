//! Outlines of highlighted pixel sets: bounding boxes, boundary edges
//! between set and non-set pixels, and the closed loops they form.
use vstd::prelude::*;
use crate::keys::{pack, pack_spec, sort_keys, dedup_sorted, find_key, strictly_sorted, lemma_pack_order};
use crate::spatial::{comps_by_size, in_comps, is_four_split, ordered_by_first_pixel, split_four_connected_components};

verus! {

broadcast use vstd::seq_lib::group_to_multiset_ensures;

/// A corner of the pixel grid: pixel `(x, y)` covers the square between
/// vertices `(x, y)` and `(x + 1, y + 1)`.
pub type Vertex = (u32, u32);

/// A directed edge between two grid vertices.
pub type Edge = ((u32, u32), (u32, u32));

/// The bounding box of a non-empty pixel set, both corners inclusive.
#[derive(Clone, Copy)]
pub struct PixelBounds {
    pub min_x: u32,
    pub min_y: u32,
    pub max_x: u32,
    pub max_y: u32,
}

impl PixelBounds {
    /// Number of pixel columns covered.
    pub fn width(&self) -> (w: u64)
        requires
            self.min_x <= self.max_x,
        ensures
            w == self.max_x - self.min_x + 1,
    {
        (self.max_x - self.min_x) as u64 + 1
    }

    /// Number of pixel rows covered.
    pub fn height(&self) -> (h: u64)
        requires
            self.min_y <= self.max_y,
        ensures
            h == self.max_y - self.min_y + 1,
    {
        (self.max_y - self.min_y) as u64 + 1
    }
}

/// `b` is the smallest box holding every pixel of the non-empty `pixels`.
pub open spec fn bounds_of(pixels: Seq<(u32, u32)>, b: PixelBounds) -> bool {
    &&& forall|i: int|
        0 <= i < pixels.len() ==> b.min_x <= (#[trigger] pixels[i]).0 <= b.max_x && b.min_y <= pixels[i].1
            <= b.max_y
    &&& exists|i: int| 0 <= i < pixels.len() && (#[trigger] pixels[i]).0 == b.min_x
    &&& exists|i: int| 0 <= i < pixels.len() && (#[trigger] pixels[i]).0 == b.max_x
    &&& exists|i: int| 0 <= i < pixels.len() && (#[trigger] pixels[i]).1 == b.min_y
    &&& exists|i: int| 0 <= i < pixels.len() && (#[trigger] pixels[i]).1 == b.max_y
}

/// The bounding box of the pixels; `None` when there are none.
pub fn pixel_bounds(pixels: &[(u32, u32)]) -> (r: Option<PixelBounds>)
    ensures
        r is None <==> pixels@.len() == 0,
        r matches Some(b) ==> bounds_of(pixels@, b),
{
    if pixels.len() == 0 {
        return None;
    }
    let (fx, fy) = pixels[0];
    let mut b = PixelBounds { min_x: fx, min_y: fy, max_x: fx, max_y: fy };
    proof {
        assert(pixels@.take(1)[0] == (fx, fy));
    }
    let mut i: usize = 1;
    while i < pixels.len()
        invariant
            1 <= i <= pixels@.len(),
            bounds_of(pixels@.take(i as int), b),
        decreases pixels@.len() - i,
    {
        let (x, y) = pixels[i];
        let ghost pre = pixels@.take(i as int);
        let ghost cur = pixels@.take(i + 1);
        let ghost b0 = b;
        if x < b.min_x {
            b.min_x = x;
        }
        if y < b.min_y {
            b.min_y = y;
        }
        if x > b.max_x {
            b.max_x = x;
        }
        if y > b.max_y {
            b.max_y = y;
        }
        proof {
            assert forall|j: int| 0 <= j < i implies #[trigger] cur[j] == pre[j] by {}
            assert(cur[i as int] == (x, y));
            let a = choose|j: int| 0 <= j < pre.len() && (#[trigger] pre[j]).0 == b0.min_x;
            let c = choose|j: int| 0 <= j < pre.len() && (#[trigger] pre[j]).0 == b0.max_x;
            let d = choose|j: int| 0 <= j < pre.len() && (#[trigger] pre[j]).1 == b0.min_y;
            let e = choose|j: int| 0 <= j < pre.len() && (#[trigger] pre[j]).1 == b0.max_y;
            assert(cur[a] == pre[a]);
            assert(cur[c] == pre[c]);
            assert(cur[d] == pre[d]);
            assert(cur[e] == pre[e]);
        }
        i = i + 1;
    }
    proof {
        assert(pixels@.take(pixels@.len() as int) =~= pixels@);
    }
    Some(b)
}

/// Sorted keys of the distinct pixels, for membership tests.
fn pixel_key_set(pixels: &[(u32, u32)]) -> (keys: Vec<u64>)
    ensures
        strictly_sorted(keys@),
        forall|q: (u32, u32)| #[trigger] keys@.contains(pack_spec(q.0, q.1)) <==> pixels@.contains(q),
{
    let ghost pix = pixels@;
    let mut pk: Vec<u64> = Vec::new();
    let mut i: usize = 0;
    while i < pixels.len()
        invariant
            pix == pixels@,
            i <= pix.len(),
            pk@.len() == i,
            forall|j: int| 0 <= j < i ==> pk@[j] == pack_spec(#[trigger] pix[j].0, pix[j].1),
        decreases pix.len() - i,
    {
        let (x, y) = pixels[i];
        pk.push(pack(x, y));
        i = i + 1;
    }
    let sorted_keys = sort_keys(&pk);
    let keys = dedup_sorted(&sorted_keys);
    proof {
        assert forall|q: (u32, u32)| #[trigger] keys@.contains(pack_spec(q.0, q.1)) <==> pix.contains(q) by {
            let kq = pack_spec(q.0, q.1);
            assert(keys@.contains(kq) <==> sorted_keys@.contains(kq));
            assert(sorted_keys@.contains(kq) <==> sorted_keys@.to_multiset().count(kq) > 0);
            assert(pk@.contains(kq) <==> pk@.to_multiset().count(kq) > 0);
            if pix.contains(q) {
                let j = choose|j: int| 0 <= j < pix.len() && pix[j] == q;
                assert(pk@[j] == kq);
            }
            if pk@.contains(kq) {
                let j = choose|j: int| 0 <= j < pk@.len() && pk@[j] == kq;
                assert(pk@[j] == pack_spec(pix[j].0, pix[j].1));
                lemma_pack_order(pix[j].0, pix[j].1, q.0, q.1);
                assert(pix[j] == q);
            }
        }
    }
    keys
}

/// Whether pixel `(x, y)` is in the set with the given keys.
fn has_pixel(keys: &Vec<u64>, x: u32, y: u32) -> (r: bool)
    requires
        strictly_sorted(keys@),
    ensures
        r == keys@.contains(pack_spec(x, y)),
{
    match find_key(keys, pack(x, y)) {
        Some(k) => {
            assert(keys@[k as int] == pack_spec(x, y));
            true
        },
        None => false,
    }
}

/// Pixel coordinates leave room for the vertex at their far corner.
pub open spec fn corners_fit(pixels: Seq<(u32, u32)>) -> bool {
    forall|i: int| 0 <= i < pixels.len() ==> (#[trigger] pixels[i]).0 < u32::MAX && pixels[i].1 < u32::MAX
}

/// The boundary edges of pixel `p` in set `c`, clockwise on screen (y grows
/// downwards): top, right, bottom and left sides that do not face another
/// pixel of the set.
pub open spec fn pixel_edges(c: Seq<(u32, u32)>, p: (u32, u32)) -> Seq<Edge> {
    let x = p.0;
    let y = p.1;
    let x1 = (x + 1) as u32;
    let y1 = (y + 1) as u32;
    let top: Seq<Edge> = if y == 0 || !c.contains((x, (y - 1) as u32)) {
        seq![((x, y), (x1, y))]
    } else {
        Seq::empty()
    };
    let right: Seq<Edge> = if !c.contains((x1, y)) {
        seq![((x1, y), (x1, y1))]
    } else {
        Seq::empty()
    };
    let bottom: Seq<Edge> = if !c.contains((x, y1)) {
        seq![((x1, y1), (x, y1))]
    } else {
        Seq::empty()
    };
    let left: Seq<Edge> = if x == 0 || !c.contains(((x - 1) as u32, y)) {
        seq![((x, y1), (x, y))]
    } else {
        Seq::empty()
    };
    top + right + bottom + left
}

/// The boundary edges of the first `n` pixels of `c`, pixel by pixel.
pub open spec fn boundary_edges(c: Seq<(u32, u32)>, n: nat) -> Seq<Edge>
    decreases n,
{
    if n == 0 {
        Seq::empty()
    } else {
        boundary_edges(c, (n - 1) as nat) + pixel_edges(c, c[n - 1])
    }
}

/// Records a boundary edge from `start` to `end`.
pub fn add_boundary_edge(edges: &mut Vec<Edge>, start: Vertex, end: Vertex)
    ensures
        final(edges)@ == old(edges)@.push((start, end)),
{
    edges.push((start, end));
}

/// Index of the most recently recorded edge leaving `v`, or -1 if none.
pub open spec fn last_edge_from(edges: Seq<Edge>, v: Vertex) -> int
    decreases edges.len(),
{
    if edges.len() == 0 {
        -1
    } else if edges.last().0 == v {
        edges.len() - 1
    } else {
        last_edge_from(edges.drop_last(), v)
    }
}

proof fn lemma_last_edge_from(edges: Seq<Edge>, v: Vertex)
    ensures
        -1 <= last_edge_from(edges, v) < edges.len(),
        last_edge_from(edges, v) >= 0 ==> edges[last_edge_from(edges, v)].0 == v,
        last_edge_from(edges, v) == -1 ==> forall|k: int| 0 <= k < edges.len() ==> (#[trigger] edges[k]).0 != v,
    decreases edges.len(),
{
    if edges.len() > 0 && edges.last().0 != v {
        lemma_last_edge_from(edges.drop_last(), v);
        assert forall|k: int| 0 <= k < edges.len() - 1 implies (#[trigger] edges[k]) == edges.drop_last()[k] by {}
    }
}

/// Takes out the most recently recorded edge leaving `start` and returns its
/// end; `None` (and no change) when no edge leaves `start`.
pub fn pop_boundary_edge(edges: &mut Vec<Edge>, start: Vertex) -> (r: Option<Vertex>)
    ensures
        ({
            let k = last_edge_from(old(edges)@, start);
            match r {
                None => k == -1 && final(edges)@ == old(edges)@,
                Some(end) => k >= 0 && old(edges)@[k] == (start, end) && final(edges)@ == old(edges)@.remove(k),
            }
        }),
{
    proof {
        lemma_last_edge_from(edges@, start);
    }
    let mut i: usize = edges.len();
    proof {
        assert(edges@.take(i as int) =~= edges@);
    }
    while i > 0
        invariant
            edges@ == old(edges)@,
            i <= edges@.len(),
            last_edge_from(edges@, start) == last_edge_from(edges@.take(i as int), start),
        decreases i,
    {
        let e = edges[i - 1];
        proof {
            assert(edges@.take(i as int).drop_last() =~= edges@.take(i - 1));
        }
        if e.0.0 == start.0 && e.0.1 == start.1 {
            proof {
                assert(edges@.take(i as int).last() == e);
            }
            let removed = edges.remove(i - 1);
            return Some(removed.1);
        }
        i = i - 1;
    }
    None
}

proof fn lemma_pixel_edges(
    c: Seq<(u32, u32)>,
    x: u32,
    y: u32,
    up: bool,
    rt: bool,
    dn: bool,
    lf: bool,
    e0: Seq<Edge>,
    e1: Seq<Edge>,
    e2: Seq<Edge>,
    e3: Seq<Edge>,
    e4: Seq<Edge>,
)
    requires
        x < u32::MAX,
        y < u32::MAX,
        up == (y == 0 || !c.contains((x, (y - 1) as u32))),
        rt == !c.contains(((x + 1) as u32, y)),
        dn == !c.contains((x, (y + 1) as u32)),
        lf == (x == 0 || !c.contains(((x - 1) as u32, y))),
        e1 == if up {
            e0.push(((x, y), ((x + 1) as u32, y)))
        } else {
            e0
        },
        e2 == if rt {
            e1.push((((x + 1) as u32, y), ((x + 1) as u32, (y + 1) as u32)))
        } else {
            e1
        },
        e3 == if dn {
            e2.push((((x + 1) as u32, (y + 1) as u32), (x, (y + 1) as u32)))
        } else {
            e2
        },
        e4 == if lf {
            e3.push(((x, (y + 1) as u32), (x, y)))
        } else {
            e3
        },
    ensures
        e4 == e0 + pixel_edges(c, (x, y)),
{
    let x1 = (x + 1) as u32;
    let y1 = (y + 1) as u32;
    let top: Seq<Edge> = if up {
        seq![((x, y), (x1, y))]
    } else {
        Seq::empty()
    };
    let right: Seq<Edge> = if rt {
        seq![((x1, y), (x1, y1))]
    } else {
        Seq::empty()
    };
    let bottom: Seq<Edge> = if dn {
        seq![((x1, y1), (x, y1))]
    } else {
        Seq::empty()
    };
    let left: Seq<Edge> = if lf {
        seq![((x, y1), (x, y))]
    } else {
        Seq::empty()
    };
    assert(e1 =~= e0 + top);
    assert(e2 =~= e0 + top + right);
    assert(e3 =~= e0 + top + right + bottom);
    assert(e4 =~= e0 + top + right + bottom + left);
    assert(pixel_edges(c, (x, y)) =~= top + right + bottom + left);
}

/// All boundary edges of the pixel set `c`, pixel by pixel.
fn collect_boundary_edges(c: &[(u32, u32)]) -> (edges: Vec<Edge>)
    requires
        corners_fit(c@),
    ensures
        edges@ == boundary_edges(c@, c@.len()),
{
    let keys = pixel_key_set(c);
    let mut edges: Vec<Edge> = Vec::new();
    let mut i: usize = 0;
    while i < c.len()
        invariant
            i <= c@.len(),
            corners_fit(c@),
            strictly_sorted(keys@),
            forall|q: (u32, u32)| #[trigger] keys@.contains(pack_spec(q.0, q.1)) <==> c@.contains(q),
            edges@ == boundary_edges(c@, i as nat),
        decreases c@.len() - i,
    {
        let (x, y) = c[i];
        assert(c@[i as int] == (x, y));
        let ghost e0 = edges@;
        let ghost cc = c@;
        let up = y == 0 || !has_pixel(&keys, x, y - 1);
        proof {
            if y > 0 {
                let q = (x, (y - 1) as u32);
                assert(keys@.contains(pack_spec(q.0, q.1)) <==> cc.contains(q));
            }
        }
        if up {
            add_boundary_edge(&mut edges, (x, y), (x + 1, y));
        }
        let ghost e1 = edges@;
        let rt = !has_pixel(&keys, x + 1, y);
        proof {
            let q = ((x + 1) as u32, y);
                assert(keys@.contains(pack_spec(q.0, q.1)) <==> cc.contains(q));
        }
        if rt {
            add_boundary_edge(&mut edges, (x + 1, y), (x + 1, y + 1));
        }
        let ghost e2 = edges@;
        let dn = !has_pixel(&keys, x, y + 1);
        proof {
            let q = (x, (y + 1) as u32);
                assert(keys@.contains(pack_spec(q.0, q.1)) <==> cc.contains(q));
        }
        if dn {
            add_boundary_edge(&mut edges, (x + 1, y + 1), (x, y + 1));
        }
        let ghost e3 = edges@;
        let lf = x == 0 || !has_pixel(&keys, x - 1, y);
        proof {
            if x > 0 {
                let q = ((x - 1) as u32, y);
                assert(keys@.contains(pack_spec(q.0, q.1)) <==> cc.contains(q));
            }
        }
        if lf {
            add_boundary_edge(&mut edges, (x, y + 1), (x, y));
        }
        proof {
            lemma_pixel_edges(cc, x, y, up, rt, dn, lf, e0, e1, e2, e3, edges@);
        }
        i = i + 1;
    }
    edges
}

/// The sign of a difference: 1, 0 or -1.
pub open spec fn sign(d: int) -> int {
    if d > 0 {
        1
    } else if d < 0 {
        -1
    } else {
        0
    }
}

/// Direction of the step from `a` to `b`, as signs of the coordinate changes.
pub open spec fn step_dir(a: Vertex, b: Vertex) -> (int, int) {
    (sign(b.0 - a.0), sign(b.1 - a.1))
}

/// Point `i` of the closed loop `pts` differs from both neighbours and the
/// loop turns there.
pub open spec fn is_corner(pts: Seq<Vertex>, i: int) -> bool {
    let n = pts.len() as int;
    let prev = if i == 0 {
        pts[n - 1]
    } else {
        pts[i - 1]
    };
    let next = if i == n - 1 {
        pts[0]
    } else {
        pts[i + 1]
    };
    let curr = pts[i];
    curr != prev && curr != next && step_dir(prev, curr) != step_dir(curr, next)
}

/// The corners among the first `k` points of the closed loop `pts`, in order.
pub open spec fn corners_upto(pts: Seq<Vertex>, k: nat) -> Seq<Vertex>
    decreases k,
{
    if k == 0 {
        Seq::empty()
    } else {
        let prev = corners_upto(pts, (k - 1) as nat);
        if is_corner(pts, k - 1) {
            prev.push(pts[k - 1])
        } else {
            prev
        }
    }
}

/// A closed loop reduced to its corners; none when fewer than three points
/// or fewer than three corners remain.
pub open spec fn simplified_loop(pts: Seq<Vertex>) -> Option<Seq<Vertex>> {
    if pts.len() < 3 {
        None
    } else {
        let c = corners_upto(pts, pts.len());
        if c.len() >= 3 {
            Some(c)
        } else {
            None
        }
    }
}

fn coord_sign(a: u32, b: u32) -> (s: i8)
    ensures
        s == sign(b - a),
{
    if b > a {
        1
    } else if b < a {
        -1
    } else {
        0
    }
}

/// Drops the points of a closed loop where it runs straight on or repeats a
/// point, keeping its corners.
pub fn simplify_closed_loop(points: &[Vertex]) -> (r: Option<Vec<Vertex>>)
    ensures
        match r {
            Some(v) => simplified_loop(points@) == Some(v@),
            None => simplified_loop(points@) is None,
        },
{
    let n = points.len();
    if n < 3 {
        return None;
    }
    let mut out: Vec<Vertex> = Vec::new();
    let mut i: usize = 0;
    while i < n
        invariant
            n == points@.len(),
            n >= 3,
            i <= n,
            out@ == corners_upto(points@, i as nat),
        decreases n - i,
    {
        let prev = if i == 0 {
            points[n - 1]
        } else {
            points[i - 1]
        };
        let next = if i == n - 1 {
            points[0]
        } else {
            points[i + 1]
        };
        let curr = points[i];
        let same_prev = curr.0 == prev.0 && curr.1 == prev.1;
        let same_next = curr.0 == next.0 && curr.1 == next.1;
        if !same_prev && !same_next {
            let in_x = coord_sign(prev.0, curr.0);
            let in_y = coord_sign(prev.1, curr.1);
            let out_x = coord_sign(curr.0, next.0);
            let out_y = coord_sign(curr.1, next.1);
            if in_x != out_x || in_y != out_y {
                out.push(curr);
            }
        }
        i = i + 1;
    }
    if out.len() >= 3 {
        Some(out)
    } else {
        None
    }
}

/// The edges walked along the points `w`, closed by the edge back to the
/// first point when `closed`.
pub open spec fn walk_edges(w: Seq<Vertex>, closed: bool) -> Seq<Edge> {
    let open: Seq<Edge> = Seq::new((w.len() - 1) as nat, |k: int| (w[k], w[k + 1]));
    if closed {
        open.push((w[w.len() - 1], w[0]))
    } else {
        open
    }
}

/// The edges of all walks, walk after walk.
pub open spec fn walks_edges(walks: Seq<(Seq<Vertex>, bool)>) -> Seq<Edge>
    decreases walks.len(),
{
    if walks.len() == 0 {
        Seq::empty()
    } else {
        walks_edges(walks.drop_last()) + walk_edges(walks.last().0, walks.last().1)
    }
}

/// The simplified loops of the walks that keep at least three corners.
pub open spec fn walk_loops(walks: Seq<(Seq<Vertex>, bool)>) -> Seq<Seq<Vertex>>
    decreases walks.len(),
{
    if walks.len() == 0 {
        Seq::empty()
    } else {
        let prev = walk_loops(walks.drop_last());
        match simplified_loop(walks.last().0) {
            Some(l) => prev.push(l),
            None => prev,
        }
    }
}

/// The walks, each of at least one point, together traverse every boundary
/// edge of `c` exactly once.
pub open spec fn traces_boundary(c: Seq<(u32, u32)>, walks: Seq<(Seq<Vertex>, bool)>) -> bool {
    &&& forall|k: int| 0 <= k < walks.len() ==> (#[trigger] walks[k]).0.len() >= 1
    &&& walks_edges(walks).to_multiset() == boundary_edges(c, c.len()).to_multiset()
}

/// The contents of a list of loops.
pub open spec fn loops_view(loops: Seq<Vec<Vertex>>) -> Seq<Seq<Vertex>> {
    Seq::new(loops.len(), |k: int| loops[k]@)
}

/// `loops` are the outlines of pixel set `c`: the corners of walks that
/// together traverse every boundary edge of `c` once.
pub open spec fn contours_of(c: Seq<(u32, u32)>, loops: Seq<Seq<Vertex>>) -> bool {
    exists|walks: Seq<(Seq<Vertex>, bool)>| #[trigger] traces_boundary(c, walks) && loops == walk_loops(walks)
}

proof fn lemma_walk_extend(w: Seq<Vertex>, v: Vertex)
    requires
        w.len() >= 1,
    ensures
        walk_edges(w.push(v), false) == walk_edges(w, false).push((w[w.len() - 1], v)),
        walk_edges(w, true) == walk_edges(w, false).push((w[w.len() - 1], w[0])),
{
    assert(walk_edges(w.push(v), false) =~= walk_edges(w, false).push((w[w.len() - 1], v)));
}

/// Outlines of the pixel set `component`: its boundary edges are walked from
/// vertex to vertex, always taking the most recently recorded edge leaving
/// the current vertex, until the walk returns to its start or runs out of
/// edges; each walk is reduced to its corners.
pub fn extract_component_contours(component: &[(u32, u32)]) -> (loops: Vec<Vec<Vertex>>)
    requires
        corners_fit(component@),
    ensures
        contours_of(component@, loops_view(loops@)),
{
    broadcast use vstd::multiset::group_multiset_axioms;

    let mut edges = collect_boundary_edges(component);
    let ghost all = edges@;
    let ghost mut walks: Seq<(Seq<Vertex>, bool)> = Seq::empty();
    let mut loops: Vec<Vec<Vertex>> = Vec::new();
    while edges.len() > 0
        invariant
            all == boundary_edges(component@, component@.len()),
            edges@.to_multiset().add(walks_edges(walks).to_multiset()) == all.to_multiset(),
            forall|k: int| 0 <= k < walks.len() ==> (#[trigger] walks[k]).0.len() >= 1,
            loops_view(loops@) == walk_loops(walks),
        decreases edges@.len(),
    {
        let start = edges[0].0;
        let e_start = edges.len();
        let mut pts: Vec<Vertex> = Vec::new();
        pts.push(start);
        let mut current = start;
        let mut closed = false;
        let mut going = true;
        let ghost done_edges = walks_edges(walks);
        while going
            invariant
                pts@.len() >= 1,
                pts@[0] == start,
                current == pts@[pts@.len() - 1],
                closed ==> !going,
                !going ==> pts@.len() > 1 || closed,
                going && pts@.len() == 1 && !closed ==> edges@.len() == e_start && edges@.len() > 0
                    && edges@[0].0 == start,
                edges@.len() + pts@.len() - 1 + (if closed {
                    1int
                } else {
                    0int
                }) == e_start,
                edges@.to_multiset().add(done_edges.to_multiset()).add(
                    walk_edges(pts@, closed).to_multiset(),
                ) == all.to_multiset(),
            decreases edges@.len() + (if going {
                1int
            } else {
                0int
            }),
        {
            let ghost old_edges = edges@;
            let ghost old_pts = pts@;
            match pop_boundary_edge(&mut edges, current) {
                None => {
                    proof {
                        if pts@.len() == 1 && !closed {
                            lemma_last_edge_from(old_edges, current);
                            assert(old_edges[0].0 == current);
                        }
                    }
                    going = false;
                },
                Some(next) => {
                    let ghost k = last_edge_from(old_edges, current);
                    let ghost e = (current, next);
                    proof {
                        lemma_last_edge_from(old_edges, current);
                        assert(old_edges[k] == e);
                        assert(old_edges.contains(e));
                        assert(edges@.to_multiset() == old_edges.to_multiset().remove(e));
                        assert(old_edges.to_multiset() =~= edges@.to_multiset().insert(e));
                        lemma_walk_extend(old_pts, next);
                    }
                    if next.0 == start.0 && next.1 == start.1 {
                        closed = true;
                        going = false;
                        proof {
                            assert(walk_edges(pts@, true).to_multiset() =~= walk_edges(
                                old_pts,
                                false,
                            ).to_multiset().insert(e));
                            assert(edges@.to_multiset().add(done_edges.to_multiset()).add(
                                walk_edges(pts@, closed).to_multiset(),
                            ) =~= all.to_multiset());
                        }
                    } else {
                        pts.push(next);
                        current = next;
                        proof {
                            assert(walk_edges(pts@, false).to_multiset() =~= walk_edges(
                                old_pts,
                                false,
                            ).to_multiset().insert(e));
                            assert(edges@.to_multiset().add(done_edges.to_multiset()).add(
                                walk_edges(pts@, closed).to_multiset(),
                            ) =~= all.to_multiset());
                        }
                    }
                },
            }
        }
        let ghost old_walks = walks;
        proof {
            walks = old_walks.push((pts@, closed));
            assert(walks.drop_last() =~= old_walks);
            vstd::seq_lib::lemma_multiset_commutative(walks_edges(old_walks), walk_edges(pts@, closed));
            assert(edges@.to_multiset().add(walks_edges(walks).to_multiset()) =~= all.to_multiset());
        }
        let simplified = simplify_closed_loop(pts.as_slice());
        match simplified {
            Some(l) => {
                let ghost old_loops = loops@;
                loops.push(l);
                proof {
                    assert(loops_view(loops@) =~= loops_view(old_loops).push(l@));
                }
            },
            None => {},
        }
    }
    proof {
        assert(edges@.to_multiset() =~= vstd::multiset::Multiset::empty());
        assert(walks_edges(walks).to_multiset() =~= all.to_multiset());
        assert(traces_boundary(component@, walks));
    }
    loops
}

/// The loops of all groups, group after group.
pub open spec fn flatten_loops(groups: Seq<Seq<Seq<Vertex>>>) -> Seq<Seq<Vertex>>
    decreases groups.len(),
{
    if groups.len() == 0 {
        Seq::empty()
    } else {
        flatten_loops(groups.drop_last()) + groups.last()
    }
}

/// `loops` are the outlines of every 4-connected component of `pixels`
/// (components largest first, equal sizes in the order of their first
/// pixels), component after component.
pub open spec fn outlines_of(
    pixels: Seq<(u32, u32)>,
    comps: Seq<Vec<(u32, u32)>>,
    groups: Seq<Seq<Seq<Vertex>>>,
    loops: Seq<Seq<Vertex>>,
) -> bool {
    &&& is_four_split(pixels, comps)
    &&& comps_by_size(comps)
    &&& ordered_by_first_pixel(pixels, comps)
    &&& groups.len() == comps.len()
    &&& forall|c: int| 0 <= c < comps.len() ==> contours_of(comps[c]@, #[trigger] groups[c])
    &&& loops == flatten_loops(groups)
}

/// Outlines of a highlighted pixel set: the contour loops of each of its
/// 4-connected components, largest component first.
pub fn extract_contour_loops(pixels: &[(u32, u32)]) -> (loops: Vec<Vec<Vertex>>)
    requires
        corners_fit(pixels@),
    ensures
        exists|comps: Seq<Vec<(u32, u32)>>, groups: Seq<Seq<Seq<Vertex>>>|
            #[trigger] outlines_of(pixels@, comps, groups, loops_view(loops@)),
{
    let comps = split_four_connected_components(pixels);
    let ghost cs = comps@;
    let ghost mut groups: Seq<Seq<Seq<Vertex>>> = Seq::empty();
    let mut loops: Vec<Vec<Vertex>> = Vec::new();
    let mut c: usize = 0;
    while c < comps.len()
        invariant
            cs == comps@,
            is_four_split(pixels@, cs),
            corners_fit(pixels@),
            c <= cs.len(),
            groups.len() == c,
            forall|k: int| 0 <= k < c ==> contours_of(cs[k]@, #[trigger] groups[k]),
            loops_view(loops@) == flatten_loops(groups),
        decreases cs.len() - c,
    {
        proof {
            assert forall|i: int| 0 <= i < cs[c as int]@.len() implies (#[trigger] cs[c as int]@[i]).0 < u32::MAX
                && cs[c as int]@[i].1 < u32::MAX by {
                assert(in_comps(cs, cs[c as int]@[i]));
                assert(pixels@.contains(cs[c as int]@[i]));
            }
        }
        let mut part = extract_component_contours(comps[c].as_slice());
        let ghost part0 = part@;
        let ghost old_loops = loops@;
        let ghost old_groups = groups;
        loops.append(&mut part);
        proof {
            assert(loops_view(loops@) =~= loops_view(old_loops) + loops_view(part0));
        }
        proof {
            groups = old_groups.push(loops_view(part0));
            assert(groups.drop_last() =~= old_groups);
            assert forall|k: int| 0 <= k < c + 1 implies contours_of(cs[k]@, #[trigger] groups[k]) by {
                if k < c {
                    assert(groups[k] == old_groups[k]);
                }
            }
        }
        c = c + 1;
    }
    proof {
        assert(outlines_of(pixels@, cs, groups, loops_view(loops@)));
    }
    loops
}

/// A colour channel lifted two fifths of the way towards white.
pub open spec fn lifted(c: u8) -> u8 {
    (c as int + (255 - c as int) * 2 / 5) as u8
}

/// A brighter version of a colour for outlines: each channel two fifths of
/// the way towards white.
pub fn brighten_rgb(color: [u8; 3]) -> (r: [u8; 3])
    ensures
        r[0] == lifted(color[0]),
        r[1] == lifted(color[1]),
        r[2] == lifted(color[2]),
{
    [lift_channel(color[0]), lift_channel(color[1]), lift_channel(color[2])]
}

fn lift_channel(c: u8) -> (r: u8)
    ensures
        r == lifted(c),
{
    let boosted: u16 = c as u16 + ((255 - c as u16) * 2 / 5);
    if boosted > 255 {
        255
    } else {
        boosted as u8
    }
}

/// Byte `j` of the tinted highlight of `pixels` in box `b`: the tint's
/// channel where some pixel lies, 0 elsewhere.
pub open spec fn highlight_byte(b: PixelBounds, pixels: Seq<(u32, u32)>, tint: [u8; 4], j: int) -> u8 {
    let width = b.max_x - b.min_x + 1;
    let cell = j / 4;
    let x = b.min_x + cell % width;
    let y = b.min_y + cell / width;
    if pixels.contains((x as u32, y as u32)) {
        tint[j % 4]
    } else {
        0
    }
}

/// An RGBA image of the box `b` with the pixels painted in `tint` and the
/// rest transparent.
pub fn highlight_rgba(b: PixelBounds, pixels: &[(u32, u32)], tint: [u8; 4]) -> (rgba: Vec<u8>)
    requires
        bounds_of(pixels@, b),
        (b.max_x - b.min_x + 1) * (b.max_y - b.min_y + 1) * 4 <= usize::MAX,
    ensures
        rgba@.len() == (b.max_x - b.min_x + 1) * (b.max_y - b.min_y + 1) * 4,
        forall|j: int| 0 <= j < rgba@.len() ==> #[trigger] rgba@[j] == highlight_byte(b, pixels@, tint, j),
{
    proof {
        let k = choose|k: int| 0 <= k < pixels@.len() && (#[trigger] pixels@[k]).0 == b.min_x;
        assert(b.min_x <= pixels@[k].0 <= b.max_x && b.min_y <= pixels@[k].1 <= b.max_y);
        let wd = b.max_x - b.min_x + 1;
        let ht = b.max_y - b.min_y + 1;
        assert(wd <= usize::MAX && ht <= usize::MAX) by (nonlinear_arith)
            requires
                wd >= 1,
                ht >= 1,
                wd * ht * 4 <= usize::MAX,
        ;
    }
    let width = (b.max_x - b.min_x) as usize + 1;
    let height = (b.max_y - b.min_y) as usize + 1;
    let n = width * height * 4;
    let mut rgba: Vec<u8> = Vec::new();
    let mut j: usize = 0;
    while j < n
        invariant
            n == width * height * 4,
            width == b.max_x - b.min_x + 1,
            j <= n,
            rgba@.len() == j,
            forall|t: int| 0 <= t < j ==> rgba@[t] == 0,
        decreases n - j,
    {
        rgba.push(0);
        j = j + 1;
    }
    let mut i: usize = 0;
    while i < pixels.len()
        invariant
            n == width * height * 4,
            width == b.max_x - b.min_x + 1,
            height == b.max_y - b.min_y + 1,
            bounds_of(pixels@, b),
            i <= pixels@.len(),
            rgba@.len() == n,
            forall|t: int|
                0 <= t < n ==> #[trigger] rgba@[t] == (if pixels@.take(i as int).contains(
                    ((b.min_x + (t / 4) % width as int) as u32, (b.min_y + (t / 4) / width as int) as u32),
                ) {
                    tint[t % 4]
                } else {
                    0
                }),
        decreases pixels@.len() - i,
    {
        let (x, y) = pixels[i];
        assert(b.min_x <= x <= b.max_x && b.min_y <= y <= b.max_y);
        let lx = (x - b.min_x) as usize;
        let ly = (y - b.min_y) as usize;
        assert(ly * width + lx < width * height) by (nonlinear_arith)
            requires
                lx < width,
                ly < height,
        ;
        let cell = ly * width + lx;
        let off = cell * 4;
        let ghost before = rgba@;
        rgba.set(off, tint[0]);
        rgba.set(off + 1, tint[1]);
        rgba.set(off + 2, tint[2]);
        rgba.set(off + 3, tint[3]);
        proof {
            let pre = pixels@.take(i as int);
            let cur = pixels@.take(i + 1);
            assert(cur =~= pre.push((x, y)));
            assert forall|t: int| 0 <= t < n implies #[trigger] rgba@[t] == (if cur.contains(
                ((b.min_x + (t / 4) % width as int) as u32, (b.min_y + (t / 4) / width as int) as u32),
            ) {
                tint[t % 4]
            } else {
                0
            }) by {
                let c = t / 4;
                let q = ((b.min_x + c % width as int) as u32, (b.min_y + c / width as int) as u32);
                assert(0 <= c % (width as int) < width) by (nonlinear_arith)
                    requires
                        width > 0,
                ;
                assert(c / (width as int) < height) by (nonlinear_arith)
                    requires
                        0 <= c,
                        c < width * height,
                        width > 0,
                ;
                vstd::arithmetic::div_mod::lemma_fundamental_div_mod(c, width as int);
                if off <= t < off + 4 {
                    assert(c == cell);
                    vstd::arithmetic::div_mod::lemma_fundamental_div_mod_converse(c, width as int, ly as int, lx as int);
                    assert(q == (x, y));
                    assert(cur.contains(q)) by {
                        assert(cur[i as int] == (x, y));
                    }
                    assert(t % 4 == t - off);
                } else {
                    assert(rgba@[t] == before[t]);
                    if q == (x, y) {
                        assert(c % (width as int) == lx);
                        assert(c / (width as int) == ly);
                        assert(c == cell) by (nonlinear_arith)
                            requires
                                c == width * (c / (width as int)) + c % (width as int),
                                c % (width as int) == lx,
                                c / (width as int) == ly,
                                cell == ly * width + lx,
                        ;
                        assert(off <= t < off + 4);
                    }
                    if cur.contains(q) && !pre.contains(q) {
                        let k = choose|k: int| 0 <= k < cur.len() && cur[k] == q;
                        if k < i {
                            assert(pre[k] == q);
                        }
                    }
                    if pre.contains(q) {
                        let k = choose|k: int| 0 <= k < pre.len() && pre[k] == q;
                        assert(cur[k] == q);
                    }
                }
            }
        }
        i = i + 1;
    }
    proof {
        assert(pixels@.take(pixels@.len() as int) =~= pixels@);
    }
    rgba
}

} // verus!
