//! Grid coordinates, the boundary policy, and neighborhoods.
//!
//! A move target computed by the physics step may leave the grid; the
//! boundary policy maps it back, either wrapping to the opposite edge or
//! clamping to the same edge.  Positions inside the grid are untouched.

use vstd::prelude::*;
use crate::fixed::{abs_spec, clamp_spec};

verus! {

/// Largest grid dimension the engine accepts.
pub const MAX_DIM: usize = 4096;

/// Chunk `id` in a `scale` x `scale` layout sits at column `id % scale`,
/// row `id / scale`.
pub fn id_coord(id: usize, scale: usize) -> (c: (usize, usize))
    requires
        scale > 0,
    ensures
        c.0 == id % scale,
        c.1 == id / scale,
{
    (id % scale, id / scale)
}

/// Whether a signed coordinate lies inside a `w` x `h` grid.
pub open spec fn in_bounds_spec(x: int, y: int, w: int, h: int) -> bool {
    0 <= x < w && 0 <= y < h
}

pub fn check_coord(x: i64, y: i64, w: usize, h: usize) -> (r: bool)
    requires
        1 <= w <= MAX_DIM,
        1 <= h <= MAX_DIM,
    ensures
        r == in_bounds_spec(x as int, y as int, w as int, h as int),
{
    0 <= x && x < w as i64 && 0 <= y && y < h as i64
}

/// The boundary policy on one axis of length `n`.  With wrap on, a
/// coordinate past either edge reappears at the opposite edge; with wrap
/// off it stays at the nearer edge.
pub open spec fn wrap_axis(v: int, edge_mode: bool, n: int) -> int {
    if edge_mode {
        if v < 0 {
            n - 1
        } else if v > n - 1 {
            0
        } else {
            v
        }
    } else {
        clamp_spec(v, 0, n - 1)
    }
}

pub fn wrapped_coord(x: i64, y: i64, edge_mode: bool, w: usize, h: usize) -> (c: (usize, usize))
    requires
        1 <= w <= MAX_DIM,
        1 <= h <= MAX_DIM,
    ensures
        c.0 == wrap_axis(x as int, edge_mode, w as int),
        c.1 == wrap_axis(y as int, edge_mode, h as int),
        c.0 < w,
        c.1 < h,
{
    let xlim = w as i64 - 1;
    let ylim = h as i64 - 1;
    let mut nx = x;
    let mut ny = y;
    if edge_mode {
        if nx < 0 {
            nx = xlim;
        } else if nx > xlim {
            nx = 0;
        }
        if ny < 0 {
            ny = ylim;
        } else if ny > ylim {
            ny = 0;
        }
    } else {
        if nx < 0 {
            nx = 0;
        } else if nx > xlim {
            nx = xlim;
        }
        if ny < 0 {
            ny = 0;
        } else if ny > ylim {
            ny = ylim;
        }
    }
    (nx as usize, ny as usize)
}

/// The boundary policy always lands inside the axis.
pub proof fn lemma_wrap_axis_range(v: int, em: bool, n: int)
    requires
        1 <= n,
    ensures
        0 <= wrap_axis(v, em, n) < n,
{
}

/// A singleton sequence holding `c`, unless `c` is `p` itself.
pub open spec fn adj_entry(c: (int, int), p: (int, int)) -> Seq<(int, int)> {
    if c != p {
        seq![c]
    } else {
        Seq::empty()
    }
}

/// One Moore neighbor of `(x, y)` through the boundary policy.
pub open spec fn adj_at(x: int, y: int, dx: int, dy: int, em: bool, w: int, h: int) -> (int, int) {
    (wrap_axis(x + dx, em, w), wrap_axis(y + dy, em, h))
}

/// The Moore neighborhood of `(x, y)` through the boundary policy, in scan
/// order (left column top to bottom, then middle, then right), with entries
/// that the policy folded back onto `(x, y)` itself left out.
pub open spec fn adjacents_spec(x: int, y: int, em: bool, w: int, h: int) -> Seq<(int, int)> {
    let p = (x, y);
    adj_entry(adj_at(x, y, -1, -1, em, w, h), p) + adj_entry(adj_at(x, y, -1, 0, em, w, h), p)
        + adj_entry(adj_at(x, y, -1, 1, em, w, h), p) + adj_entry(adj_at(x, y, 0, -1, em, w, h), p)
        + adj_entry(adj_at(x, y, 0, 1, em, w, h), p) + adj_entry(adj_at(x, y, 1, -1, em, w, h), p)
        + adj_entry(adj_at(x, y, 1, 0, em, w, h), p) + adj_entry(adj_at(x, y, 1, 1, em, w, h), p)
}

/// Elementwise facts survive concatenation.
proof fn lemma_concat_all<A>(a: Seq<A>, b: Seq<A>, pred: spec_fn(A) -> bool)
    requires
        forall|k: int| 0 <= k < a.len() ==> pred(#[trigger] a[k]),
        forall|k: int| 0 <= k < b.len() ==> pred(#[trigger] b[k]),
    ensures
        forall|k: int| 0 <= k < (a + b).len() ==> pred(#[trigger] (a + b)[k]),
{
    assert forall|k: int| 0 <= k < (a + b).len() implies pred(#[trigger] (a + b)[k]) by {
        if k < a.len() {
            assert((a + b)[k] == a[k]);
        } else {
            assert((a + b)[k] == b[k - a.len()]);
        }
    }
}

/// One neighborhood segment's entry lies inside the grid and differs from
/// the cell itself.
proof fn lemma_adj_entry_ok(x: int, y: int, dx: int, dy: int, em: bool, w: int, h: int)
    requires
        1 <= w,
        1 <= h,
    ensures
        forall|k: int|
            0 <= k < adj_entry(adj_at(x, y, dx, dy, em, w, h), (x, y)).len() ==> {
                let c = #[trigger] adj_entry(adj_at(x, y, dx, dy, em, w, h), (x, y))[k];
                &&& 0 <= c.0 < w
                &&& 0 <= c.1 < h
                &&& c != (x, y)
            },
{
    lemma_wrap_axis_range(x + dx, em, w);
    lemma_wrap_axis_range(y + dy, em, h);
}

/// Every neighborhood entry lies inside the grid and differs from the
/// cell itself.
pub proof fn lemma_adjacents_entries(x: int, y: int, em: bool, w: int, h: int)
    requires
        1 <= w,
        1 <= h,
        0 <= x < w,
        0 <= y < h,
    ensures
        forall|k: int|
            0 <= k < adjacents_spec(x, y, em, w, h).len() ==> {
                let c = #[trigger] adjacents_spec(x, y, em, w, h)[k];
                &&& 0 <= c.0 < w
                &&& 0 <= c.1 < h
                &&& c != (x, y)
            },
{
    let p = (x, y);
    let pred = |c: (int, int)| 0 <= c.0 < w && 0 <= c.1 < h && c != p;
    lemma_adj_entry_ok(x, y, -1, -1, em, w, h);
    lemma_adj_entry_ok(x, y, -1, 0, em, w, h);
    lemma_adj_entry_ok(x, y, -1, 1, em, w, h);
    lemma_adj_entry_ok(x, y, 0, -1, em, w, h);
    lemma_adj_entry_ok(x, y, 0, 1, em, w, h);
    lemma_adj_entry_ok(x, y, 1, -1, em, w, h);
    lemma_adj_entry_ok(x, y, 1, 0, em, w, h);
    lemma_adj_entry_ok(x, y, 1, 1, em, w, h);
    let e0 = adj_entry(adj_at(x, y, -1, -1, em, w, h), p);
    let e1 = adj_entry(adj_at(x, y, -1, 0, em, w, h), p);
    let e2 = adj_entry(adj_at(x, y, -1, 1, em, w, h), p);
    let e3 = adj_entry(adj_at(x, y, 0, -1, em, w, h), p);
    let e4 = adj_entry(adj_at(x, y, 0, 1, em, w, h), p);
    let e5 = adj_entry(adj_at(x, y, 1, -1, em, w, h), p);
    let e6 = adj_entry(adj_at(x, y, 1, 0, em, w, h), p);
    let e7 = adj_entry(adj_at(x, y, 1, 1, em, w, h), p);
    lemma_concat_all(e0, e1, pred);
    lemma_concat_all(e0 + e1, e2, pred);
    lemma_concat_all(e0 + e1 + e2, e3, pred);
    lemma_concat_all(e0 + e1 + e2 + e3, e4, pred);
    lemma_concat_all(e0 + e1 + e2 + e3 + e4, e5, pred);
    lemma_concat_all(e0 + e1 + e2 + e3 + e4 + e5, e6, pred);
    lemma_concat_all(e0 + e1 + e2 + e3 + e4 + e5 + e6, e7, pred);
}

/// The cell directly below an interior position appears in its
/// neighborhood.
pub proof fn lemma_adjacents_below(x: int, y: int, em: bool, w: int, h: int)
    requires
        1 <= w,
        0 <= x < w,
        0 <= y,
        y + 1 < h,
    ensures
        exists|k: int|
            0 <= k < adjacents_spec(x, y, em, w, h).len() && #[trigger] adjacents_spec(
                x,
                y,
                em,
                w,
                h,
            )[k] == (x, y + 1),
{
    let p = (x, y);
    let q = (x, y + 1);
    assert(adj_at(x, y, 0, 1, em, w, h) == q);
    let e0 = adj_entry(adj_at(x, y, -1, -1, em, w, h), p);
    let e1 = adj_entry(adj_at(x, y, -1, 0, em, w, h), p);
    let e2 = adj_entry(adj_at(x, y, -1, 1, em, w, h), p);
    let e3 = adj_entry(adj_at(x, y, 0, -1, em, w, h), p);
    let e4 = adj_entry(adj_at(x, y, 0, 1, em, w, h), p);
    let e5 = adj_entry(adj_at(x, y, 1, -1, em, w, h), p);
    let e6 = adj_entry(adj_at(x, y, 1, 0, em, w, h), p);
    let e7 = adj_entry(adj_at(x, y, 1, 1, em, w, h), p);
    let pre = e0 + e1 + e2 + e3;
    assert(e4 == seq![q]);
    let idx = pre.len() as int;
    assert((pre + e4)[idx] == q);
    assert((pre + e4 + e5)[idx] == q);
    assert((pre + e4 + e5 + e6)[idx] == q);
    assert((pre + e4 + e5 + e6 + e7)[idx] == q);
    assert(adjacents_spec(x, y, em, w, h) == pre + e4 + e5 + e6 + e7);
}

/// The sequence of coordinate pairs a vector of grid positions stands for.
pub open spec fn coords_view(v: Seq<(usize, usize)>) -> Seq<(int, int)> {
    v.map_values(|c: (usize, usize)| (c.0 as int, c.1 as int))
}

#[verifier::rlimit(30)]
pub fn adjacents(x: usize, y: usize, edge_mode: bool, w: usize, h: usize) -> (r: Vec<
    (usize, usize),
>)
    requires
        1 <= w <= MAX_DIM,
        1 <= h <= MAX_DIM,
        x < w,
        y < h,
    ensures
        coords_view(r@) == adjacents_spec(x as int, y as int, edge_mode, w as int, h as int),
        forall|i: int| 0 <= i < r@.len() ==> r@[i].0 < w && r@[i].1 < h,
{
    let mut r: Vec<(usize, usize)> = Vec::new();
    let xi = x as i64;
    let yi = y as i64;

    let c0 = wrapped_coord(xi - 1, yi - 1, edge_mode, w, h);
    if !(c0.0 == x && c0.1 == y) {
        r.push(c0);
    }
    let c1 = wrapped_coord(xi - 1, yi, edge_mode, w, h);
    if !(c1.0 == x && c1.1 == y) {
        r.push(c1);
    }
    let c2 = wrapped_coord(xi - 1, yi + 1, edge_mode, w, h);
    if !(c2.0 == x && c2.1 == y) {
        r.push(c2);
    }
    let c3 = wrapped_coord(xi, yi - 1, edge_mode, w, h);
    if !(c3.0 == x && c3.1 == y) {
        r.push(c3);
    }
    let c4 = wrapped_coord(xi, yi + 1, edge_mode, w, h);
    if !(c4.0 == x && c4.1 == y) {
        r.push(c4);
    }
    let c5 = wrapped_coord(xi + 1, yi - 1, edge_mode, w, h);
    if !(c5.0 == x && c5.1 == y) {
        r.push(c5);
    }
    let c6 = wrapped_coord(xi + 1, yi, edge_mode, w, h);
    if !(c6.0 == x && c6.1 == y) {
        r.push(c6);
    }
    let c7 = wrapped_coord(xi + 1, yi + 1, edge_mode, w, h);
    if !(c7.0 == x && c7.1 == y) {
        r.push(c7);
    }
    proof {
        assert(coords_view(r@) =~= adjacents_spec(
            x as int,
            y as int,
            edge_mode,
            w as int,
            h as int,
        ));
    }
    r
}

/// The corners of the axis-aligned rectangle two positions span:
/// `(left, top, right, bottom)`.
pub fn rect_pos(x1: usize, y1: usize, x2: usize, y2: usize) -> (r: (usize, usize, usize, usize))
    ensures
        r.0 == if x1 < x2 { x1 as int } else { x2 as int },
        r.2 == if x1 < x2 { x2 as int } else { x1 as int },
        r.1 == if y1 < y2 { y1 as int } else { y2 as int },
        r.3 == if y1 < y2 { y2 as int } else { y1 as int },
{
    let (lx, hx) = if x1 < x2 {
        (x1, x2)
    } else {
        (x2, x1)
    };
    let (ly, hy) = if y1 < y2 {
        (y1, y2)
    } else {
        (y2, y1)
    };
    (lx, ly, hx, hy)
}

/// Squared distance between two grid positions.
pub open spec fn dist2(ax: int, ay: int, cx: int, cy: int) -> int {
    (ax - cx) * (ax - cx) + (ay - cy) * (ay - cy)
}

/// The squared distance of an offset position is the squared offset.
pub proof fn lemma_dist2_offset(x: int, y: int, dx: int, dy: int)
    ensures
        dist2(x + dx, y + dy, x, y) == dx * dx + dy * dy,
{
    assert((x + dx - x) * (x + dx - x) == dx * dx && (y + dy - y) * (y + dy - y) == dy * dy)
        by (nonlinear_arith)
    ;
}

/// Whether the quadrant offset `(i, j)` lies in the disk of radius `r`.
pub open spec fn in_disk(i: int, j: int, r: int) -> bool {
    0 <= i < r && 0 <= j < r && i * i + j * j <= r * r
}

/// The four reflections of the offset `(i, j)` around `(x, y)` appear in
/// `v`, wherever they land inside the `w` x `h` grid.
pub open spec fn disk_covered(
    v: Seq<(usize, usize)>,
    x: int,
    y: int,
    i: int,
    j: int,
    w: int,
    h: int,
) -> bool {
    &&& (x + i < w && y + j < h ==> v.contains((((x + i) as usize), ((y + j) as usize))))
    &&& (i <= x && y + j < h ==> v.contains((((x - i) as usize), ((y + j) as usize))))
    &&& (x + i < w && j <= y ==> v.contains((((x + i) as usize), ((y - j) as usize))))
    &&& (i <= x && j <= y ==> v.contains((((x - i) as usize), ((y - j) as usize))))
}

/// A sequence that extends another keeps its members.
proof fn lemma_contains_extended<A>(s1: Seq<A>, s2: Seq<A>, c: A)
    requires
        s1.contains(c),
        s1.len() <= s2.len(),
        forall|k: int| 0 <= k < s1.len() ==> s2[k] == s1[k],
    ensures
        s2.contains(c),
{
    let k = choose|k: int| 0 <= k < s1.len() && s1[k] == c;
    assert(s2[k] == c);
}

/// Coverage facts survive extending the position list.
proof fn lemma_disk_covered_extends(
    v0: Seq<(usize, usize)>,
    v1: Seq<(usize, usize)>,
    x: int,
    y: int,
    r: int,
    w: int,
    h: int,
)
    requires
        v0.len() <= v1.len(),
        forall|k: int| 0 <= k < v0.len() ==> v1[k] == v0[k],
    ensures
        forall|i: int, j: int|
            #[trigger] in_disk(i, j, r) && disk_covered(v0, x, y, i, j, w, h) ==> disk_covered(
                v1,
                x,
                y,
                i,
                j,
                w,
                h,
            ),
{
    assert forall|i: int, j: int|
        #[trigger] in_disk(i, j, r) && disk_covered(v0, x, y, i, j, w, h) implies disk_covered(
        v1,
        x,
        y,
        i,
        j,
        w,
        h,
    ) by {
        if x + i < w && y + j < h {
            lemma_contains_extended(v0, v1, (((x + i) as usize), ((y + j) as usize)));
        }
        if i <= x && y + j < h {
            lemma_contains_extended(v0, v1, (((x - i) as usize), ((y + j) as usize)));
        }
        if x + i < w && j <= y {
            lemma_contains_extended(v0, v1, (((x + i) as usize), ((y - j) as usize)));
        }
        if i <= x && j <= y {
            lemma_contains_extended(v0, v1, (((x - i) as usize), ((y - j) as usize)));
        }
    }
}

/// The grid positions within (squared) distance `r * r` of `(x, y)`: the
/// whole disk, clipped to the grid — every covered position appears, every
/// element is a reflection of an in-disk offset (both axis offsets below
/// `r`), positions on the axes appear more than once (as harmless for
/// placement as for erasure), and radius 0 covers nothing.
#[verifier::rlimit(30)]
pub fn radius(x: usize, y: usize, r: usize, w: usize, h: usize) -> (v: Vec<(usize, usize)>)
    requires
        1 <= w <= MAX_DIM,
        1 <= h <= MAX_DIM,
        x < w,
        y < h,
        r <= MAX_DIM,
    ensures
        forall|k: int|
            0 <= k < v@.len() ==> {
                &&& v@[k].0 < w
                &&& v@[k].1 < h
                &&& dist2(v@[k].0 as int, v@[k].1 as int, x as int, y as int) <= r * r
            },
        forall|k: int|
            0 <= k < v@.len() ==> abs_spec((#[trigger] v@[k]).0 as int - x as int) < r && abs_spec(
                v@[k].1 as int - y as int,
            ) < r,
        forall|i: int, j: int|
            #[trigger] in_disk(i, j, r as int) ==> disk_covered(
                v@,
                x as int,
                y as int,
                i,
                j,
                w as int,
                h as int,
            ),
        r == 0 ==> v@.len() == 0,
{
    let mut v: Vec<(usize, usize)> = Vec::new();
    let xi = x as i64;
    let yi = y as i64;
    let wi = w as i64;
    let hi = h as i64;
    let mut i: usize = 0;
    while i < r
        invariant
            i <= r,
            r <= MAX_DIM,
            x < w <= MAX_DIM,
            y < h <= MAX_DIM,
            xi == x as int,
            yi == y as int,
            wi == w as int,
            hi == h as int,
            r == 0 ==> v@.len() == 0,
            forall|k: int|
                0 <= k < v@.len() ==> {
                    &&& v@[k].0 < w
                    &&& v@[k].1 < h
                    &&& dist2(v@[k].0 as int, v@[k].1 as int, x as int, y as int) <= r * r
                },
            forall|k: int|
                0 <= k < v@.len() ==> abs_spec((#[trigger] v@[k]).0 as int - x as int) < r
                    && abs_spec(v@[k].1 as int - y as int) < r,
            forall|i0: int, j0: int|
                #[trigger] in_disk(i0, j0, r as int) && i0 < i ==> disk_covered(
                    v@,
                    x as int,
                    y as int,
                    i0,
                    j0,
                    w as int,
                    h as int,
                ),
        decreases r - i,
    {
        let mut j: usize = 0;
        while j < r
            invariant
                j <= r,
                r <= MAX_DIM,
                x < w <= MAX_DIM,
                y < h <= MAX_DIM,
                xi == x as int,
                yi == y as int,
                wi == w as int,
                hi == h as int,
                i < r,
                forall|k: int|
                    0 <= k < v@.len() ==> {
                        &&& v@[k].0 < w
                        &&& v@[k].1 < h
                        &&& dist2(v@[k].0 as int, v@[k].1 as int, x as int, y as int) <= r * r
                    },
                forall|k: int|
                    0 <= k < v@.len() ==> abs_spec((#[trigger] v@[k]).0 as int - x as int) < r
                        && abs_spec(v@[k].1 as int - y as int) < r,
                forall|i0: int, j0: int|
                    #[trigger] in_disk(i0, j0, r as int) && i0 < i ==> disk_covered(
                        v@,
                        x as int,
                        y as int,
                        i0,
                        j0,
                        w as int,
                        h as int,
                    ),
                forall|j0: int|
                    #[trigger] in_disk(i as int, j0, r as int) && j0 < j ==> disk_covered(
                        v@,
                        x as int,
                        y as int,
                        i as int,
                        j0,
                        w as int,
                        h as int,
                    ),
            decreases r - j,
        {
            proof {
                assert(i * i <= 4096 * 4096 && j * j <= 4096 * 4096 && r * r <= 4096 * 4096)
                    by (nonlinear_arith)
                    requires
                        i <= 4096,
                        j <= 4096,
                        r <= 4096,
                ;
            }
            if i * i + j * j <= r * r {
                let ii = i as i64;
                let ji = j as i64;
                proof {
                    let ix = i as int;
                    let jx = j as int;
                    assert((-ix) * (-ix) == ix * ix && (-jx) * (-jx) == jx * jx)
                        by (nonlinear_arith)
                    ;
                    lemma_dist2_offset(x as int, y as int, ix, jx);
                    lemma_dist2_offset(x as int, y as int, -ix, jx);
                    lemma_dist2_offset(x as int, y as int, ix, -jx);
                    lemma_dist2_offset(x as int, y as int, -ix, -jx);
                }
                let ghost v0 = v@;
                if xi + ii < wi && yi + ji < hi {
                    v.push(((xi + ii) as usize, (yi + ji) as usize));
                }
                let ghost v1 = v@;
                if 0 <= xi - ii && yi + ji < hi {
                    v.push(((xi - ii) as usize, (yi + ji) as usize));
                }
                let ghost v2 = v@;
                if xi + ii < wi && 0 <= yi - ji {
                    v.push(((xi + ii) as usize, (yi - ji) as usize));
                }
                let ghost v3 = v@;
                if 0 <= xi - ii && 0 <= yi - ji {
                    v.push(((xi - ii) as usize, (yi - ji) as usize));
                }
                proof {
                    let ix = i as int;
                    let jx = j as int;
                    let xx = x as int;
                    let yx = y as int;
                    assert(forall|k: int| 0 <= k < v0.len() ==> #[trigger] v@[k] == v0[k]);
                    if xx + ix < w && yx + jx < h {
                        assert(v1[v0.len() as int] == (((xx + ix) as usize), ((yx + jx) as usize)));
                        assert(v@[v0.len() as int] == v1[v0.len() as int]);
                        assert(v@.contains((((xx + ix) as usize), ((yx + jx) as usize))));
                    }
                    if ix <= xx && yx + jx < h {
                        assert(v2[v1.len() as int] == (((xx - ix) as usize), ((yx + jx) as usize)));
                        assert(v@[v1.len() as int] == v2[v1.len() as int]);
                        assert(v@.contains((((xx - ix) as usize), ((yx + jx) as usize))));
                    }
                    if xx + ix < w && jx <= yx {
                        assert(v3[v2.len() as int] == (((xx + ix) as usize), ((yx - jx) as usize)));
                        assert(v@[v2.len() as int] == v3[v2.len() as int]);
                        assert(v@.contains((((xx + ix) as usize), ((yx - jx) as usize))));
                    }
                    if ix <= xx && jx <= yx {
                        assert(v@[v3.len() as int] == (((xx - ix) as usize), ((yx - jx) as usize)));
                        assert(v@.contains((((xx - ix) as usize), ((yx - jx) as usize))));
                    }
                    assert(disk_covered(v@, xx, yx, ix, jx, w as int, h as int));
                    lemma_disk_covered_extends(v0, v@, xx, yx, r as int, w as int, h as int);
                }
            }
            j = j + 1;
        }
        i = i + 1;
    }
    v
}

} // verus!
