//! The simulation state: the grid, the global constants, the material
//! registry, and the chunk layout.
//!
//! The chunk layout partitions the grid into `chunk_div` equal rectangles
//! in a square arrangement: `chunk_div` must be a perfect square whose
//! root divides both grid dimensions — anything else is a configuration
//! error rejected before the first tick.

use vstd::prelude::*;
use vstd::arithmetic::div_mod::{
    lemma_fundamental_div_mod, lemma_fundamental_div_mod_converse,
};
use crate::coords::MAX_DIM;
use crate::elements::{registry_wf, spawn_code, base_pixel_spec, ElementList};
use crate::grid::{grid_wf, gview, lemma_grid_lens, set_cell};
use crate::pixel::{params_ok, vel_ok, Pixel, FRICTION_MAX, GRAVITY_MAX};
use crate::rng::SimRng;

verus! {

/// The whole simulation state.
pub struct Simulation {
    pub width: usize,
    pub height: usize,
    /// Pixels per cell, for a renderer; the engine never reads it.
    pub scale: u32,
    /// Number of chunks; a perfect square.
    pub chunk_div: usize,
    /// The square root of `chunk_div`: chunks form a scale x scale layout.
    pub chunk_scale: usize,
    pub grid: Vec<Vec<Pixel>>,
    pub gravity: i64,
    pub friction: i64,
    pub mouse_x: usize,
    pub mouse_y: usize,
    /// Boundary policy: true wraps to the opposite edge, false clamps.
    pub edge_mode: bool,
    pub elements: ElementList,
    pub rng: SimRng,
}

/// A valid chunk count for a `w` x `h` grid: a perfect square whose root
/// divides both dimensions.
pub open spec fn valid_chunking(n: usize, w: usize, h: usize) -> bool {
    exists|s: int| 1 <= s && #[trigger] (s * s) == n && w as int % s == 0 && h as int % s == 0
}

/// Everything the engine relies on between ticks.
pub open spec fn sim_wf(s: Simulation) -> bool {
    &&& 1 <= s.width <= MAX_DIM
    &&& 1 <= s.height <= MAX_DIM
    &&& grid_wf(gview(s.grid), s.width as int, s.height as int)
    &&& 0 <= s.gravity <= GRAVITY_MAX
    &&& 0 <= s.friction <= FRICTION_MAX
    &&& registry_wf(s.elements)
    &&& 1 <= s.chunk_scale
    &&& s.chunk_scale * s.chunk_scale == s.chunk_div
    &&& s.width as int % s.chunk_scale as int == 0
    &&& s.height as int % s.chunk_scale as int == 0
    &&& s.mouse_x < s.width
    &&& s.mouse_y < s.height
}

/// Two nonnegative integers with equal squares are equal.
proof fn lemma_sqrt_unique(a: int, b: int)
    requires
        a >= 0,
        b >= 0,
        a * a == b * b,
    ensures
        a == b,
{
    if a < b {
        assert(a * a < b * b) by (nonlinear_arith)
            requires
                0 <= a < b,
        ;
    }
    if b < a {
        assert(b * b < a * a) by (nonlinear_arith)
            requires
                0 <= b < a,
        ;
    }
}

/// The exact integer square root of `n`, if `n` is a perfect square.
pub fn exact_sqrt(n: usize) -> (r: Option<usize>)
    requires
        n <= 65536,
    ensures
        match r {
            Some(s) => s * s == n,
            None => forall|t: int| t >= 0 ==> #[trigger] (t * t) != n,
        },
{
    let mut t: usize = 0;
    while t <= 256
        invariant
            t <= 257,
            n <= 65536,
            forall|u: int| 0 <= u < t ==> #[trigger] (u * u) != n,
        decreases 257 - t,
    {
        proof {
            assert(t * t <= 256 * 256) by (nonlinear_arith)
                requires
                    t <= 256,
            ;
        }
        if t * t == n {
            return Some(t);
        }
        t = t + 1;
    }
    proof {
        assert forall|u: int| u >= 0 implies #[trigger] (u * u) != n by {
            if u >= 257 {
                assert(u * u >= 257 * 257) by (nonlinear_arith)
                    requires
                        u >= 257,
                ;
            }
        }
    }
    None
}

/// `sub` is the snapshot of the chunk of `g` whose origin is `(ox, oy)`,
/// rebased to chunk-local coordinates: same contents, positions local.
pub open spec fn subgrid_matches(
    g: Seq<Seq<Pixel>>,
    sub: Seq<Seq<Pixel>>,
    ox: int,
    oy: int,
    cw: int,
    ch: int,
) -> bool {
    &&& sub.len() == ch
    &&& forall|y: int| 0 <= y < ch ==> (#[trigger] sub[y]).len() == cw
    &&& forall|y: int, x: int|
        0 <= y < ch && 0 <= x < cw ==> #[trigger] sub[y][x] == (Pixel {
            x: x as usize,
            y: y as usize,
            ..g[oy + y][ox + x]
        })
}

/// The chunk of `g` with origin `(ox, oy)`, as its own grid in
/// chunk-local coordinates.
pub open spec fn subgrid_of(
    g: Seq<Seq<Pixel>>,
    ox: int,
    oy: int,
    cw: int,
    ch: int,
) -> Seq<Seq<Pixel>> {
    Seq::new(
        ch as nat,
        |y: int|
            Seq::new(
                cw as nat,
                |x: int| Pixel { x: x as usize, y: y as usize, ..g[oy + y][ox + x] },
            ),
    )
}

/// Position and bounds of chunk `id`'s column (or row) origin.
pub proof fn lemma_chunk_id_coords(id: int, s: int)
    requires
        1 <= s,
        0 <= id < s * s,
    ensures
        0 <= id % s < s,
        0 <= id / s < s,
{
    lemma_axis_coords(id, s, s);
}

/// A chunk origin plus the chunk extent stays inside the axis.
pub proof fn lemma_chunk_origin(m: int, s: int, cd: int, n: int)
    requires
        0 <= m < s,
        1 <= s,
        1 <= cd,
        n == s * cd,
    ensures
        0 <= m * cd,
        m * cd + cd <= n,
{
    assert(0 <= m * cd && (m + 1) * cd <= s * cd && (m + 1) * cd == m * cd + cd)
        by (nonlinear_arith)
        requires
            0 <= m < s,
            1 <= cd,
    ;
}

/// A coordinate below `s * cd` splits into a block index below `s` and an
/// offset below `cd`.
pub proof fn lemma_axis_coords(v: int, s: int, cd: int)
    requires
        1 <= s,
        1 <= cd,
        0 <= v < s * cd,
    ensures
        0 <= v % cd < cd,
        0 <= v / cd < s,
{
    vstd::arithmetic::div_mod::lemma_mod_bound(v, cd);
    vstd::arithmetic::div_mod::lemma_div_pos_is_pos(v, cd);
    assert(s * cd - 1 == cd * (s - 1) + (cd - 1)) by (nonlinear_arith);
    lemma_fundamental_div_mod_converse(s * cd - 1, cd, s - 1, cd - 1);
    vstd::arithmetic::div_mod::lemma_div_is_ordered(v, s * cd - 1, cd);
}

/// The whole-axis length is the chunk count times the chunk extent.
pub proof fn lemma_axis_split(n: int, s: int)
    requires
        1 <= s,
        0 <= n,
        n % s == 0,
    ensures
        n == s * (n / s),
{
    lemma_fundamental_div_mod(n, s);
}

impl Simulation {
    /// Build a simulation from a configuration, every cell starting as
    /// air.  Yields the simulation exactly when the dimensions and
    /// constants are in range and the chunk count tiles the grid evenly;
    /// any other configuration is rejected here, before the first tick.
    pub fn with_config(
        width: usize,
        height: usize,
        chunk_div: usize,
        gravity: i64,
        friction: i64,
        edge_mode: bool,
        seed: u64,
    ) -> (r: Option<Simulation>)
        ensures
            match r {
                Some(sim) => {
                    &&& sim_wf(sim)
                    &&& sim.width == width
                    &&& sim.height == height
                    &&& sim.chunk_div == chunk_div
                    &&& sim.gravity == gravity
                    &&& sim.friction == friction
                    &&& sim.edge_mode == edge_mode
                    &&& sim.mouse_x == 0 && sim.mouse_y == 0
                    &&& valid_chunking(chunk_div, width, height)
                    &&& forall|y: int, x: int|
                        0 <= y < height && 0 <= x < width ==> {
                            let p = #[trigger] gview(sim.grid)[y][x];
                            p == (Pixel {
                                color: p.color,
                                ..base_pixel_spec(1, x as usize, y as usize)
                            })
                        }
                },
                None => !{
                    &&& 1 <= width <= MAX_DIM
                    &&& 1 <= height <= MAX_DIM
                    &&& 0 <= gravity <= GRAVITY_MAX
                    &&& 0 <= friction <= FRICTION_MAX
                    &&& chunk_div <= 65536
                    &&& valid_chunking(chunk_div, width, height)
                },
            },
    {
        if !(1 <= width && width <= MAX_DIM && 1 <= height && height <= MAX_DIM) {
            return None;
        }
        if !(0 <= gravity && gravity <= GRAVITY_MAX && 0 <= friction && friction <= FRICTION_MAX) {
            return None;
        }
        if chunk_div > 65536 {
            return None;
        }
        let sq = exact_sqrt(chunk_div);
        let s = match sq {
            Some(s) => s,
            None => {
                return None;
            },
        };
        if s == 0 {
            proof {
                assert forall|t: int|
                    !(1 <= t && #[trigger] (t * t) == chunk_div && width as int % t == 0
                        && height as int % t == 0) by {
                    if 1 <= t && t * t == chunk_div {
                        lemma_sqrt_unique(t, s as int);
                    }
                }
            }
            return None;
        }
        if width % s != 0 || height % s != 0 {
            proof {
                assert forall|t: int|
                    !(1 <= t && #[trigger] (t * t) == chunk_div && width as int % t == 0
                        && height as int % t == 0) by {
                    if 1 <= t && t * t == chunk_div {
                        lemma_sqrt_unique(t, s as int);
                    }
                }
            }
            return None;
        }

        let mut rng = SimRng::seeded(seed);
        let mut grid: Vec<Vec<Pixel>> = Vec::new();
        let mut y: usize = 0;
        while y < height
            invariant
                y <= height,
                width <= MAX_DIM,
                grid@.len() == y,
                forall|yy: int| 0 <= yy < y ==> (#[trigger] grid@[yy])@.len() == width,
                forall|yy: int, xx: int|
                    0 <= yy < y && 0 <= xx < width ==> {
                        let p = #[trigger] grid@[yy]@[xx];
                        p == (Pixel { color: p.color, ..base_pixel_spec(1, xx as usize, yy as usize) })
                    },
            decreases height - y,
        {
            let mut row: Vec<Pixel> = Vec::new();
            let mut x: usize = 0;
            while x < width
                invariant
                    x <= width,
                    y < height,
                    row@.len() == x,
                    forall|xx: int|
                        0 <= xx < x ==> {
                            let p = #[trigger] row@[xx];
                            p == (Pixel {
                                color: p.color,
                                ..base_pixel_spec(1, xx as usize, y as usize)
                            })
                        },
                decreases width - x,
            {
                let p = spawn_code(1, x, y, &mut rng);
                row.push(p);
                x = x + 1;
            }
            grid.push(row);
            y = y + 1;
        }

        let elements = ElementList::new();
        let sim = Simulation {
            width,
            height,
            scale: 10,
            chunk_div,
            chunk_scale: s,
            grid,
            gravity,
            friction,
            mouse_x: 0,
            mouse_y: 0,
            edge_mode,
            elements,
            rng,
        };
        proof {
            crate::elements::lemma_kind_params(1, 0, 0);
            assert forall|yy: int, xx: int|
                0 <= yy < height && 0 <= xx < width implies {
                let p = #[trigger] gview(sim.grid)[yy][xx];
                &&& p.x == xx
                &&& p.y == yy
                &&& params_ok(p)
                &&& vel_ok(p)
            } by {
                let p = gview(sim.grid)[yy][xx];
                assert(p == (Pixel {
                    color: p.color,
                    ..base_pixel_spec(1, xx as usize, yy as usize)
                }));
                crate::elements::lemma_kind_params(1, xx as usize, yy as usize);
            }
            assert(valid_chunking(chunk_div, width, height)) by {
                assert(1 <= s as int && (s as int) * (s as int) == chunk_div && width as int % (
                s as int) == 0 && height as int % (s as int) == 0);
            }
        }
        Some(sim)
    }

    /// The default simulation the interactive front end starts from:
    /// a 40 x 40 grid in four chunks, unit gravity, 0.99 friction,
    /// clamping edges.
    pub fn new() -> (r: Simulation)
        ensures
            sim_wf(r),
            r.width == 40,
            r.height == 40,
            r.chunk_div == 4,
            r.gravity == 1000,
            r.friction == 990,
            r.edge_mode == false,
            forall|y: int, x: int|
                0 <= y < 40 && 0 <= x < 40 ==> {
                    let p = #[trigger] gview(r.grid)[y][x];
                    p == (Pixel { color: p.color, ..base_pixel_spec(1, x as usize, y as usize) })
                },
    {
        let r = Simulation::with_config(40, 40, 4, 1000, 990, false, 0);
        proof {
            assert(1 <= 2 && (2 as int) * (2 as int) == 4 && 40 as int % 2 == 0 && 40 as int % 2
                == 0);
            assert(valid_chunking(4, 40, 40));
        }
        match r {
            Some(sim) => sim,
            None => vstd::pervasive::unreached(),
        }
    }

    /// Split the grid into its chunk snapshots, in chunk-local
    /// coordinates, indexed by chunk id (row-major over the chunk
    /// layout).  Chunks are disjoint and together tile the grid.
    pub fn update_grids(&self) -> (r: Vec<Vec<Vec<Pixel>>>)
        requires
            sim_wf(*self),
        ensures
            r@.len() == self.chunk_div,
            forall|id: int|
                0 <= id < self.chunk_div ==> subgrid_matches(
                    gview(self.grid),
                    gview(#[trigger] r@[id]),
                    (id % self.chunk_scale as int) * (self.width as int / self.chunk_scale as int),
                    (id / self.chunk_scale as int) * (self.height as int
                        / self.chunk_scale as int),
                    self.width as int / self.chunk_scale as int,
                    self.height as int / self.chunk_scale as int,
                ),
            forall|id: int|
                0 <= id < self.chunk_div ==> grid_wf(
                    gview(#[trigger] r@[id]),
                    self.width as int / self.chunk_scale as int,
                    self.height as int / self.chunk_scale as int,
                ),
            forall|id: int|
                0 <= id < self.chunk_div ==> gview(#[trigger] r@[id]) == subgrid_of(
                    gview(self.grid),
                    (id % self.chunk_scale as int) * (self.width as int / self.chunk_scale as int),
                    (id / self.chunk_scale as int) * (self.height as int
                        / self.chunk_scale as int),
                    self.width as int / self.chunk_scale as int,
                    self.height as int / self.chunk_scale as int,
                ),
    {
        let s = self.chunk_scale;
        let cw = self.width / s;
        let ch = self.height / s;
        proof {
            lemma_axis_split(self.width as int, s as int);
            lemma_axis_split(self.height as int, s as int);
            if cw == 0 {
                assert(s as int * 0 == 0) by (nonlinear_arith);
            }
            if ch == 0 {
                assert(s as int * 0 == 0) by (nonlinear_arith);
            }
        }
        let mut out: Vec<Vec<Vec<Pixel>>> = Vec::new();
        let mut id: usize = 0;
        while id < self.chunk_div
            invariant
                sim_wf(*self),
                id <= self.chunk_div,
                s == self.chunk_scale,
                1 <= cw,
                1 <= ch,
                cw == self.width as int / s as int,
                ch == self.height as int / s as int,
                self.width as int == s as int * cw as int,
                self.height as int == s as int * ch as int,
                out@.len() == id,
                forall|k: int|
                    0 <= k < id ==> subgrid_matches(
                        gview(self.grid),
                        gview(#[trigger] out@[k]),
                        (k % s as int) * cw as int,
                        (k / s as int) * ch as int,
                        cw as int,
                        ch as int,
                    ),
                forall|k: int|
                    0 <= k < id ==> grid_wf(gview(#[trigger] out@[k]), cw as int, ch as int),
            decreases self.chunk_div - id,
        {
            proof {
                assert(self.chunk_div == s * s);
                lemma_chunk_id_coords(id as int, s as int);
            }
            let cx = id % s;
            let cy = id / s;
            proof {
                lemma_chunk_origin(cx as int, s as int, cw as int, self.width as int);
                lemma_chunk_origin(cy as int, s as int, ch as int, self.height as int);
            }
            let ox = cx * cw;
            let oy = cy * ch;
            let mut sub: Vec<Vec<Pixel>> = Vec::new();
            let mut ly: usize = 0;
            while ly < ch
                invariant
                    sim_wf(*self),
                    ly <= ch,
                    1 <= cw,
                    ox + cw <= self.width,
                    oy + ch <= self.height,
                    sub@.len() == ly,
                    forall|yy: int| 0 <= yy < ly ==> (#[trigger] sub@[yy])@.len() == cw,
                    forall|yy: int, xx: int|
                        0 <= yy < ly && 0 <= xx < cw ==> #[trigger] sub@[yy]@[xx] == (Pixel {
                            x: xx as usize,
                            y: yy as usize,
                            ..gview(self.grid)[oy + yy][ox + xx]
                        }),
                decreases ch - ly,
            {
                let mut row: Vec<Pixel> = Vec::new();
                let mut lx: usize = 0;
                while lx < cw
                    invariant
                        sim_wf(*self),
                        lx <= cw,
                        ly < ch,
                        ox + cw <= self.width,
                        oy + ch <= self.height,
                        row@.len() == lx,
                        forall|xx: int|
                            0 <= xx < lx ==> #[trigger] row@[xx] == (Pixel {
                                x: xx as usize,
                                y: ly as usize,
                                ..gview(self.grid)[oy + ly][ox + xx]
                            }),
                    decreases cw - lx,
                {
                    proof {
                        lemma_grid_lens(&self.grid, self.width as int, self.height as int);
                    }
                    let p = self.grid[oy + ly][ox + lx];
                    proof {
                        assert(p == gview(self.grid)[oy + ly][ox + lx]);
                    }
                    let mut q = p;
                    q.x = lx;
                    q.y = ly;
                    row.push(q);
                    lx = lx + 1;
                }
                sub.push(row);
                ly = ly + 1;
            }
            proof {
                let g = gview(self.grid);
                let sv = gview(sub);
                assert forall|yy: int, xx: int| 0 <= yy < ch && 0 <= xx < cw implies #[trigger] sv[yy][xx]
                    == (Pixel { x: xx as usize, y: yy as usize, ..g[oy + yy][ox + xx] }) by {
                    assert(sub@[yy]@[xx] == (Pixel {
                        x: xx as usize,
                        y: yy as usize,
                        ..g[oy + yy][ox + xx]
                    }));
                }
                assert(subgrid_matches(g, sv, ox as int, oy as int, cw as int, ch as int));
                assert forall|yy: int, xx: int| 0 <= yy < ch && 0 <= xx < cw implies {
                    let p = #[trigger] sv[yy][xx];
                    p.x == xx && p.y == yy && params_ok(p) && vel_ok(p)
                } by {
                    assert(sv[yy][xx] == (Pixel {
                        x: xx as usize,
                        y: yy as usize,
                        ..g[oy + yy][ox + xx]
                    }));
                }
                assert(grid_wf(sv, cw as int, ch as int));
            }
            out.push(sub);
            id = id + 1;
        }
        proof {
            assert forall|k: int| 0 <= k < self.chunk_div implies gview(#[trigger] out@[k])
                == subgrid_of(
                gview(self.grid),
                (k % s as int) * cw as int,
                (k / s as int) * ch as int,
                cw as int,
                ch as int,
            ) by {
                let sv = gview(out@[k]);
                let sg = subgrid_of(
                    gview(self.grid),
                    (k % s as int) * cw as int,
                    (k / s as int) * ch as int,
                    cw as int,
                    ch as int,
                );
                assert(subgrid_matches(
                    gview(self.grid),
                    sv,
                    (k % s as int) * cw as int,
                    (k / s as int) * ch as int,
                    cw as int,
                    ch as int,
                ));
                assert forall|yy: int| 0 <= yy < ch implies #[trigger] sv[yy] =~= sg[yy] by {
                    assert(sv[yy].len() == cw);
                }
                assert(sv =~= sg);
            }
        }
        out
    }

    /// The absolute grid coordinate of chunk-local position `(x, y)` in
    /// chunk `id`.
    pub fn grid_pos(&self, id: usize, x: usize, y: usize) -> (r: (usize, usize))
        requires
            sim_wf(*self),
            id < self.chunk_div,
            x < self.width / self.chunk_scale,
            y < self.height / self.chunk_scale,
        ensures
            r.0 == x + (id as int % self.chunk_scale as int) * (self.width as int
                / self.chunk_scale as int),
            r.1 == y + (id as int / self.chunk_scale as int) * (self.height as int
                / self.chunk_scale as int),
            r.0 < self.width,
            r.1 < self.height,
    {
        let s = self.chunk_scale;
        let cw = self.width / s;
        let ch = self.height / s;
        proof {
            lemma_axis_split(self.width as int, s as int);
            lemma_axis_split(self.height as int, s as int);
            assert(self.chunk_div == s * s);
            lemma_chunk_id_coords(id as int, s as int);
            lemma_chunk_origin((id % s) as int, s as int, cw as int, self.width as int);
            lemma_chunk_origin((id / s) as int, s as int, ch as int, self.height as int);
        }
        let cx = id % s;
        let cy = id / s;
        (x + cx * cw, y + cy * ch)
    }
}

/// The views of a vector of chunk grids.
pub open spec fn subs_view(v: Seq<Vec<Vec<Pixel>>>) -> Seq<Seq<Seq<Pixel>>> {
    v.map_values(|g: Vec<Vec<Pixel>>| gview(g))
}

/// The cell a merged grid holds at `(x, y)`: the cell of the chunk that
/// covers the coordinate, rebased to the absolute position.
pub open spec fn merged_cell(
    subs: Seq<Seq<Seq<Pixel>>>,
    s: int,
    cw: int,
    ch: int,
    x: int,
    y: int,
) -> Pixel {
    Pixel { x: x as usize, y: y as usize, ..subs[(y / ch) * s + x / cw][y % ch][x % cw] }
}

/// The grid the chunk outputs stitch into.
pub open spec fn merged_grid(
    subs: Seq<Vec<Vec<Pixel>>>,
    s: int,
    cw: int,
    ch: int,
    w: int,
    h: int,
) -> Seq<Seq<Pixel>> {
    Seq::new(
        h as nat,
        |y: int| Seq::new(w as nat, |x: int| merged_cell(subs_view(subs), s, cw, ch, x, y)),
    )
}

/// Stitch the chunk outputs back into one grid by absolute offset.  This
/// cannot conflict: chunks are disjoint by construction.
pub fn merge_subgrids(
    subs: &Vec<Vec<Vec<Pixel>>>,
    w: usize,
    h: usize,
    s: usize,
    cw: usize,
    ch: usize,
) -> (r: Vec<Vec<Pixel>>)
    requires
        1 <= s,
        1 <= cw,
        1 <= ch,
        w as int == s as int * cw as int,
        h as int == s as int * ch as int,
        w <= MAX_DIM,
        h <= MAX_DIM,
        subs@.len() == s * s,
        forall|id: int| 0 <= id < s * s ==> grid_wf(gview(#[trigger] subs@[id]), cw as int, ch as int),
    ensures
        grid_wf(gview(r), w as int, h as int),
        forall|y: int, x: int|
            0 <= y < h && 0 <= x < w ==> #[trigger] gview(r)[y][x] == (Pixel {
                x: x as usize,
                y: y as usize,
                ..gview(subs@[(y / ch as int) * s as int + x / cw as int])[y % ch as int][x % cw as int]
            }),
        gview(r) == merged_grid(subs@, s as int, cw as int, ch as int, w as int, h as int),
{
    let mut out: Vec<Vec<Pixel>> = Vec::new();
    let mut y: usize = 0;
    while y < h
        invariant
            y <= h,
            1 <= s,
            1 <= cw,
            1 <= ch,
            w as int == s as int * cw as int,
            h as int == s as int * ch as int,
            w <= MAX_DIM,
            h <= MAX_DIM,
            subs@.len() == s * s,
            forall|id: int|
                0 <= id < s * s ==> grid_wf(gview(#[trigger] subs@[id]), cw as int, ch as int),
            out@.len() == y,
            forall|yy: int| 0 <= yy < y ==> (#[trigger] out@[yy])@.len() == w,
            forall|yy: int, xx: int|
                0 <= yy < y && 0 <= xx < w ==> #[trigger] out@[yy]@[xx] == (Pixel {
                    x: xx as usize,
                    y: yy as usize,
                    ..gview(subs@[(yy / ch as int) * s as int + xx / cw as int])[yy % ch as int][xx
                        % cw as int]
                }),
        decreases h - y,
    {
        let mut row: Vec<Pixel> = Vec::new();
        let mut x: usize = 0;
        proof {
            lemma_axis_coords(y as int, s as int, ch as int);
        }
        while x < w
            invariant
                x <= w,
                y < h,
                1 <= s,
                1 <= cw,
                1 <= ch,
                w as int == s as int * cw as int,
                h as int == s as int * ch as int,
                w <= MAX_DIM,
                h <= MAX_DIM,
                subs@.len() == s * s,
                0 <= (y as int / ch as int) < (s as int),
                forall|id: int|
                    0 <= id < s * s ==> grid_wf(gview(#[trigger] subs@[id]), cw as int, ch as int),
                row@.len() == x,
                forall|xx: int|
                    0 <= xx < x ==> #[trigger] row@[xx] == (Pixel {
                        x: xx as usize,
                        y: y as usize,
                        ..gview(subs@[(y as int / ch as int) * s as int + xx / cw as int])[y as int
                            % ch as int][xx % cw as int]
                    }),
            decreases w - x,
        {
            proof {
                lemma_axis_coords(x as int, s as int, cw as int);
            }
            let cy = y / ch;
            let cx = x / cw;
            proof {
                assert((s as int) <= (w as int)) by (nonlinear_arith)
                    requires
                        (w as int) == (s as int) * (cw as int),
                        1 <= (cw as int),
                        1 <= (s as int),
                ;
                assert((cy as int * s as int + cx as int) < (s as int) * (s as int) && (s as int)
                    * (s as int) <= 16777216) by (nonlinear_arith)
                    requires
                        0 <= (cy as int) < (s as int),
                        0 <= (cx as int) < (s as int),
                        1 <= (s as int) <= 4096,
                ;
            }
            let id = cy * s + cx;
            let ly = y % ch;
            let lx = x % cw;
            proof {
                lemma_grid_lens(&subs[id as int], cw as int, ch as int);
            }
            let p = subs[id][ly][lx];
            proof {
                assert(p == gview(subs@[id as int])[ly as int][lx as int]);
            }
            let mut q = p;
            q.x = x;
            q.y = y;
            row.push(q);
            x = x + 1;
        }
        out.push(row);
        y = y + 1;
    }
    proof {
        let rv = gview(out);
        assert forall|yy: int, xx: int| 0 <= yy < h && 0 <= xx < w implies {
            let p = #[trigger] rv[yy][xx];
            p.x == xx && p.y == yy && params_ok(p) && vel_ok(p)
        } by {
            lemma_axis_coords(yy, s as int, ch as int);
            lemma_axis_coords(xx, s as int, cw as int);
            let cy = yy / ch as int;
            let cx = xx / cw as int;
            assert(0 <= cy * (s as int) + cx && (cy * (s as int) + cx) < (s as int) * (s as int)) by (nonlinear_arith)
                requires
                    0 <= cy < (s as int),
                    0 <= cx < (s as int),
                    1 <= s,
            ;
            let id = cy * s as int + cx;
            assert(out@[yy]@[xx] == (Pixel {
                x: xx as usize,
                y: yy as usize,
                ..gview(subs@[id])[yy % ch as int][xx % cw as int]
            }));
            assert(grid_wf(gview(subs@[id]), cw as int, ch as int));
        }
        assert forall|yy: int, xx: int| 0 <= yy < h && 0 <= xx < w implies #[trigger] rv[yy][xx]
            == merged_cell(
            subs_view(subs@),
            s as int,
            cw as int,
            ch as int,
            xx,
            yy,
        ) by {
            vstd::arithmetic::div_mod::lemma_div_pos_is_pos(yy, ch as int);
            vstd::arithmetic::div_mod::lemma_div_pos_is_pos(xx, cw as int);
            assert(s as int * ch as int - 1 == ch as int * (s as int - 1) + (ch as int - 1))
                by (nonlinear_arith);
            lemma_fundamental_div_mod_converse(
                s as int * ch as int - 1,
                ch as int,
                s as int - 1,
                ch as int - 1,
            );
            vstd::arithmetic::div_mod::lemma_div_is_ordered(yy, s as int * ch as int - 1, ch as int);
            assert(s as int * cw as int - 1 == cw as int * (s as int - 1) + (cw as int - 1))
                by (nonlinear_arith);
            lemma_fundamental_div_mod_converse(
                s as int * cw as int - 1,
                cw as int,
                s as int - 1,
                cw as int - 1,
            );
            vstd::arithmetic::div_mod::lemma_div_is_ordered(xx, s as int * cw as int - 1, cw as int);
            let cy = yy / ch as int;
            let cx = xx / cw as int;
            assert(0 <= cy * (s as int) + cx && (cy * (s as int) + cx) < (s as int) * (s as int))
                by (nonlinear_arith)
                requires
                    0 <= cy < (s as int),
                    0 <= cx < (s as int),
                    1 <= s,
            ;
            let id = cy * s as int + cx;
            assert(out@[yy]@[xx] == (Pixel {
                x: xx as usize,
                y: yy as usize,
                ..gview(subs@[id])[yy % ch as int][xx % cw as int]
            }));
            assert(subs_view(subs@)[id] == gview(subs@[id]));
        }
        let mg = merged_grid(subs@, s as int, cw as int, ch as int, w as int, h as int);
        assert forall|yy: int| 0 <= yy < h implies #[trigger] rv[yy] =~= mg[yy] by {
            assert(rv[yy].len() == w);
        }
        assert(rv =~= mg);
    }
    out
}

/// Chunking loses nothing: the chunk snapshots of a grid, stitched back
/// together by their origins, are exactly the original grid — no cell
/// lost, duplicated, or altered, for every valid chunk layout.
pub proof fn lemma_split_merge_roundtrip(
    g: Seq<Seq<Pixel>>,
    subs: Seq<Seq<Seq<Pixel>>>,
    merged: Seq<Seq<Pixel>>,
    w: int,
    h: int,
    s: int,
    cw: int,
    ch: int,
)
    requires
        grid_wf(g, w, h),
        1 <= s,
        1 <= cw,
        1 <= ch,
        w == s * cw,
        h == s * ch,
        subs.len() == s * s,
        forall|id: int|
            0 <= id < s * s ==> subgrid_matches(
                g,
                #[trigger] subs[id],
                (id % s) * cw,
                (id / s) * ch,
                cw,
                ch,
            ),
        merged.len() == h,
        forall|y: int| 0 <= y < h ==> (#[trigger] merged[y]).len() == w,
        forall|y: int, x: int|
            0 <= y < h && 0 <= x < w ==> #[trigger] merged[y][x] == (Pixel {
                x: x as usize,
                y: y as usize,
                ..subs[(y / ch) * s + x / cw][y % ch][x % cw]
            }),
    ensures
        merged =~~= g,
{
    assert forall|y: int, x: int| 0 <= y < h && 0 <= x < w implies #[trigger] merged[y][x] == g[y][x] by {
        lemma_axis_coords(y, s, ch);
        lemma_axis_coords(x, s, cw);
        let cy = y / ch;
        let cx = x / cw;
        let id = cy * s + cx;
        assert(0 <= id < s * s && id / s == cy && id % s == cx) by {
            assert(0 <= cy * s + cx < s * s && cy * s + cx == s * cy + cx) by (nonlinear_arith)
                requires
                    0 <= cy < s,
                    0 <= cx < s,
            ;
            lemma_fundamental_div_mod_converse(id, s, cy, cx);
        }
        assert(subgrid_matches(g, subs[id], cx * cw, cy * ch, cw, ch));
        let ly = y % ch;
        let lx = x % cw;
        assert(subs[id][ly][lx] == (Pixel {
            x: lx as usize,
            y: ly as usize,
            ..g[cy * ch + ly][cx * cw + lx]
        }));
        lemma_fundamental_div_mod(y, ch);
        lemma_fundamental_div_mod(x, cw);
        assert(cy * ch + ly == y && cx * cw + lx == x) by (nonlinear_arith)
            requires
                y == ch * cy + ly,
                x == cw * cx + lx,
        ;
        assert(g[y][x].x == x && g[y][x].y == y);
    }
    assert(merged =~~= g);
}

/// `p` is a freshly placed cell of kind `code` at `(x, y)`: its color is
/// textured, everything else is the kind's record.
pub open spec fn is_placed(p: Pixel, x: int, y: int, code: u8) -> bool {
    p == (Pixel { color: p.color, ..base_pixel_spec(code, x as usize, y as usize) })
}

impl Simulation {
    /// Overwrite the cell under the mouse with a fresh cell of the named
    /// material (an unknown name places the sentinel kind).
    pub fn place_pixel(&mut self, typ: String)
        requires
            sim_wf(*old(self)),
        ensures
            sim_wf(*final(self)),
            *final(self) == (Simulation {
                grid: final(self).grid,
                rng: final(self).rng,
                ..*old(self)
            }),
            is_placed(
                gview(final(self).grid)[old(self).mouse_y as int][old(self).mouse_x as int],
                old(self).mouse_x as int,
                old(self).mouse_y as int,
                crate::elements::name_code_spec(typ@),
            ),
            forall|y: int, x: int|
                0 <= y < old(self).height && 0 <= x < old(self).width && !(x
                    == old(self).mouse_x as int && y == old(self).mouse_y as int)
                    ==> #[trigger] gview(final(self).grid)[y][x] == gview(old(self).grid)[y][x],
    {
        let x = self.mouse_x;
        let y = self.mouse_y;
        let p = Pixel::spawn(&typ, x, y, &mut self.rng);
        proof {
            crate::elements::lemma_kind_params(crate::elements::name_code_spec(typ@), x, y);
        }
        let w = self.width;
        let h = self.height;
        set_cell(&mut self.grid, x, y, p, w, h);
    }

    /// Fill the rectangle spanned by the last click (the mouse position)
    /// and `(x2, y2)` with fresh cells of the named material.
    pub fn place_line(&mut self, x2: usize, y2: usize, typ: String)
        requires
            sim_wf(*old(self)),
            x2 < old(self).width,
            y2 < old(self).height,
        ensures
            sim_wf(*final(self)),
            *final(self) == (Simulation {
                grid: final(self).grid,
                rng: final(self).rng,
                ..*old(self)
            }),
            ({
                let lx = if old(self).mouse_x < x2 { old(self).mouse_x as int } else { x2 as int };
                let hx = if old(self).mouse_x < x2 { x2 as int } else { old(self).mouse_x as int };
                let ly = if old(self).mouse_y < y2 { old(self).mouse_y as int } else { y2 as int };
                let hy = if old(self).mouse_y < y2 { y2 as int } else { old(self).mouse_y as int };
                &&& forall|y: int, x: int|
                    0 <= y < old(self).height && 0 <= x < old(self).width && !(lx <= x <= hx && ly
                        <= y <= hy) ==> #[trigger] gview(final(self).grid)[y][x] == gview(
                        old(self).grid,
                    )[y][x]
                &&& forall|y: int, x: int|
                    lx <= x <= hx && ly <= y <= hy ==> is_placed(
                        #[trigger] gview(final(self).grid)[y][x],
                        x,
                        y,
                        crate::elements::name_code_spec(typ@),
                    )
            }),
    {
        let ghost code = crate::elements::name_code_spec(typ@);
        let w = self.width;
        let h = self.height;
        let rect = crate::coords::rect_pos(self.mouse_x, self.mouse_y, x2, y2);
        let (lx, ly, hx, hy) = rect;
        let mut x = lx;
        while x <= hx
            invariant
                lx <= x <= hx + 1,
                hx < w,
                hy < h,
                ly <= hy,
                w == self.width,
                h == self.height,
                code == crate::elements::name_code_spec(typ@),
                sim_wf(*self),
                *self == (Simulation { grid: self.grid, rng: self.rng, ..*old(self) }),
                forall|yy: int, xx: int|
                    0 <= yy < h && 0 <= xx < w && !(lx <= xx <= hx && ly <= yy <= hy)
                        ==> #[trigger] gview(self.grid)[yy][xx] == gview(old(self).grid)[yy][xx],
                forall|yy: int, xx: int|
                    lx <= xx < x && ly <= yy <= hy ==> is_placed(
                        #[trigger] gview(self.grid)[yy][xx],
                        xx,
                        yy,
                        code,
                    ),
            decreases hx + 1 - x,
        {
            let mut y = ly;
            while y <= hy
                invariant
                    lx <= x <= hx,
                    ly <= y <= hy + 1,
                    hx < w,
                    hy < h,
                    w == self.width,
                    h == self.height,
                    code == crate::elements::name_code_spec(typ@),
                    sim_wf(*self),
                    *self == (Simulation { grid: self.grid, rng: self.rng, ..*old(self) }),
                    forall|yy: int, xx: int|
                        0 <= yy < h && 0 <= xx < w && !(lx <= xx <= hx && ly <= yy <= hy)
                            ==> #[trigger] gview(self.grid)[yy][xx] == gview(
                            old(self).grid,
                        )[yy][xx],
                    forall|yy: int, xx: int|
                        lx <= xx < x && ly <= yy <= hy ==> is_placed(
                            #[trigger] gview(self.grid)[yy][xx],
                            xx,
                            yy,
                            code,
                        ),
                    forall|yy: int|
                        ly <= yy < y ==> is_placed(
                            #[trigger] gview(self.grid)[yy][x as int],
                            x as int,
                            yy,
                            code,
                        ),
                decreases hy + 1 - y,
            {
                let p = Pixel::spawn(&typ, x, y, &mut self.rng);
                proof {
                    crate::elements::lemma_kind_params(code, x, y);
                }
                set_cell(&mut self.grid, x, y, p, w, h);
                y = y + 1;
            }
            x = x + 1;
        }
    }

    /// Replace every light cell (density at most 0.3) at or below the
    /// mouse row with the named material, flooding the lower grid.
    pub fn sea(&mut self, typ: String)
        requires
            sim_wf(*old(self)),
        ensures
            sim_wf(*final(self)),
            *final(self) == (Simulation {
                grid: final(self).grid,
                rng: final(self).rng,
                ..*old(self)
            }),
            forall|y: int, x: int|
                0 <= y < old(self).height && 0 <= x < old(self).width && (y < old(self).mouse_y
                    || gview(old(self).grid)[y][x].density > 300) ==> #[trigger] gview(
                    final(self).grid,
                )[y][x] == gview(old(self).grid)[y][x],
            forall|y: int, x: int|
                old(self).mouse_y <= y < old(self).height && 0 <= x < old(self).width && gview(
                    old(self).grid,
                )[y][x].density <= 300 ==> is_placed(
                    #[trigger] gview(final(self).grid)[y][x],
                    x,
                    y,
                    crate::elements::name_code_spec(typ@),
                ),
    {
        let ghost code = crate::elements::name_code_spec(typ@);
        let w = self.width;
        let h = self.height;
        let y0 = self.mouse_y;
        let mut x: usize = 0;
        while x < w
            invariant
                x <= w,
                y0 < h,
                w == self.width,
                h == self.height,
                y0 == old(self).mouse_y,
                code == crate::elements::name_code_spec(typ@),
                sim_wf(*self),
                *self == (Simulation { grid: self.grid, rng: self.rng, ..*old(self) }),
                forall|yy: int, xx: int|
                    0 <= yy < h && 0 <= xx < w && (yy < y0 || gview(old(self).grid)[yy][xx].density
                        > 300) ==> #[trigger] gview(self.grid)[yy][xx] == gview(
                        old(self).grid,
                    )[yy][xx],
                forall|yy: int, xx: int|
                    y0 <= yy < h && 0 <= xx < x && gview(old(self).grid)[yy][xx].density <= 300
                        ==> is_placed(#[trigger] gview(self.grid)[yy][xx], xx, yy, code),
                forall|yy: int, xx: int|
                    0 <= yy < h && x <= xx < w ==> #[trigger] gview(self.grid)[yy][xx] == gview(
                        old(self).grid,
                    )[yy][xx],
            decreases w - x,
        {
            let mut y = y0;
            while y < h
                invariant
                    x < w,
                    y0 <= y <= h,
                    w == self.width,
                    h == self.height,
                    y0 == old(self).mouse_y,
                    code == crate::elements::name_code_spec(typ@),
                    sim_wf(*self),
                    *self == (Simulation { grid: self.grid, rng: self.rng, ..*old(self) }),
                    forall|yy: int, xx: int|
                        0 <= yy < h && 0 <= xx < w && (yy < y0 || gview(
                            old(self).grid,
                        )[yy][xx].density > 300) ==> #[trigger] gview(self.grid)[yy][xx] == gview(
                            old(self).grid,
                        )[yy][xx],
                    forall|yy: int, xx: int|
                        y0 <= yy < h && 0 <= xx < x && gview(old(self).grid)[yy][xx].density <= 300
                            ==> is_placed(#[trigger] gview(self.grid)[yy][xx], xx, yy, code),
                    forall|yy: int|
                        y0 <= yy < y && gview(old(self).grid)[yy][x as int].density <= 300
                            ==> is_placed(#[trigger] gview(self.grid)[yy][x as int], x as int, yy, code),
                    forall|yy: int, xx: int|
                        0 <= yy < h && x < xx < w ==> #[trigger] gview(self.grid)[yy][xx] == gview(
                            old(self).grid,
                        )[yy][xx],
                    forall|yy: int|
                        y <= yy < h ==> #[trigger] gview(self.grid)[yy][x as int] == gview(
                            old(self).grid,
                        )[yy][x as int],
                decreases h - y,
            {
                proof {
                    lemma_grid_lens(&self.grid, w as int, h as int);
                }
                let d = self.grid[y][x].density;
                proof {
                    assert(gview(self.grid)[y as int][x as int] == gview(
                        old(self).grid,
                    )[y as int][x as int]);
                }
                if d <= 300 {
                    let p = Pixel::spawn(&typ, x, y, &mut self.rng);
                    proof {
                        crate::elements::lemma_kind_params(code, x, y);
                    }
                    set_cell(&mut self.grid, x, y, p, w, h);
                }
                y = y + 1;
            }
            x = x + 1;
        }
    }

    /// The grid positions within radius `r` of the mouse.
    pub fn radius_iter(&mut self, r: usize) -> (v: Vec<(usize, usize)>)
        requires
            sim_wf(*old(self)),
            r <= MAX_DIM,
        ensures
            *final(self) == *old(self),
            forall|k: int|
                0 <= k < v@.len() ==> {
                    &&& (#[trigger] v@[k]).0 < old(self).width
                    &&& v@[k].1 < old(self).height
                    &&& crate::coords::dist2(
                        v@[k].0 as int,
                        v@[k].1 as int,
                        old(self).mouse_x as int,
                        old(self).mouse_y as int,
                    ) <= r * r
                },
            forall|k: int|
                0 <= k < v@.len() ==> crate::fixed::abs_spec(
                    (#[trigger] v@[k]).0 as int - old(self).mouse_x as int,
                ) < r && crate::fixed::abs_spec(v@[k].1 as int - old(self).mouse_y as int) < r,
            forall|i: int, j: int|
                #[trigger] crate::coords::in_disk(i, j, r as int) ==> crate::coords::disk_covered(
                    v@,
                    old(self).mouse_x as int,
                    old(self).mouse_y as int,
                    i,
                    j,
                    old(self).width as int,
                    old(self).height as int,
                ),
            r == 0 ==> v@.len() == 0,
    {
        crate::coords::radius(self.mouse_x, self.mouse_y, r, self.width, self.height)
    }

    /// Erase a disk around the mouse: every position the disk covers now
    /// holds a fresh air cell; everything outside the disk is untouched.
    pub fn erase(&mut self, r: usize, _typ: String)
        requires
            sim_wf(*old(self)),
            r <= MAX_DIM,
        ensures
            sim_wf(*final(self)),
            *final(self) == (Simulation {
                grid: final(self).grid,
                rng: final(self).rng,
                ..*old(self)
            }),
            forall|y: int, x: int|
                0 <= y < old(self).height && 0 <= x < old(self).width ==> (#[trigger] gview(
                    final(self).grid,
                )[y][x] == gview(old(self).grid)[y][x] || (is_placed(
                    gview(final(self).grid)[y][x],
                    x,
                    y,
                    1,
                ) && crate::coords::dist2(
                    x,
                    y,
                    old(self).mouse_x as int,
                    old(self).mouse_y as int,
                ) <= r * r && crate::fixed::abs_spec(x - old(self).mouse_x as int) < r
                    && crate::fixed::abs_spec(y - old(self).mouse_y as int) < r)),
            forall|i: int, j: int|
                #[trigger] crate::coords::in_disk(i, j, r as int) ==> ({
                    let mx = old(self).mouse_x as int;
                    let my = old(self).mouse_y as int;
                    let w = old(self).width as int;
                    let h = old(self).height as int;
                    let g2 = gview(final(self).grid);
                    &&& (mx + i < w && my + j < h ==> is_placed(
                        g2[my + j][mx + i],
                        mx + i,
                        my + j,
                        1,
                    ))
                    &&& (i <= mx && my + j < h ==> is_placed(g2[my + j][mx - i], mx - i, my + j, 1))
                    &&& (mx + i < w && j <= my ==> is_placed(g2[my - j][mx + i], mx + i, my - j, 1))
                    &&& (i <= mx && j <= my ==> is_placed(g2[my - j][mx - i], mx - i, my - j, 1))
                }),
    {
        let pts = self.radius_iter(r);
        let w = self.width;
        let h = self.height;
        let n = pts.len();
        let mut k: usize = 0;
        while k < n
            invariant
                k <= n,
                n == pts@.len(),
                w == self.width,
                h == self.height,
                sim_wf(*self),
                *self == (Simulation { grid: self.grid, rng: self.rng, ..*old(self) }),
                forall|k2: int|
                    0 <= k2 < n ==> {
                        &&& (#[trigger] pts@[k2]).0 < w
                        &&& pts@[k2].1 < h
                        &&& crate::coords::dist2(
                            pts@[k2].0 as int,
                            pts@[k2].1 as int,
                            old(self).mouse_x as int,
                            old(self).mouse_y as int,
                        ) <= r * r
                        &&& crate::fixed::abs_spec(pts@[k2].0 as int - old(self).mouse_x as int)
                            < r
                        &&& crate::fixed::abs_spec(pts@[k2].1 as int - old(self).mouse_y as int)
                            < r
                    },
                forall|y: int, x: int|
                    0 <= y < h && 0 <= x < w ==> (#[trigger] gview(self.grid)[y][x] == gview(
                        old(self).grid,
                    )[y][x] || (is_placed(gview(self.grid)[y][x], x, y, 1) && crate::coords::dist2(
                        x,
                        y,
                        old(self).mouse_x as int,
                        old(self).mouse_y as int,
                    ) <= r * r && crate::fixed::abs_spec(x - old(self).mouse_x as int) < r
                        && crate::fixed::abs_spec(y - old(self).mouse_y as int) < r)),
                forall|k2: int|
                    0 <= k2 < k ==> ({
                        let c = #[trigger] pts@[k2];
                        is_placed(gview(self.grid)[c.1 as int][c.0 as int], c.0 as int, c.1 as int, 1)
                    }),
            decreases n - k,
        {
            let (px, py) = pts[k];
            let p = crate::elements::air(px, py, &mut self.rng);
            proof {
                crate::elements::lemma_kind_params(1, px, py);
            }
            let ghost gpre = gview(self.grid);
            set_cell(&mut self.grid, px, py, p, w, h);
            proof {
                assert forall|k2: int| 0 <= k2 < k + 1 implies ({
                    let c = #[trigger] pts@[k2];
                    is_placed(gview(self.grid)[c.1 as int][c.0 as int], c.0 as int, c.1 as int, 1)
                }) by {
                    let c = pts@[k2];
                    if c.0 == px && c.1 == py {
                        assert(gview(self.grid)[py as int][px as int] == p);
                    } else {
                        assert(gview(self.grid)[c.1 as int][c.0 as int] == gpre[c.1 as int][c.0 as int]);
                    }
                }
            }
            k = k + 1;
        }
        proof {
            let mx = self.mouse_x as int;
            let my = self.mouse_y as int;
            assert forall|i: int, j: int| #[trigger] crate::coords::in_disk(i, j, r as int) implies ({
                let g2 = gview(self.grid);
                &&& (mx + i < w && my + j < h ==> is_placed(g2[my + j][mx + i], mx + i, my + j, 1))
                &&& (i <= mx && my + j < h ==> is_placed(g2[my + j][mx - i], mx - i, my + j, 1))
                &&& (mx + i < w && j <= my ==> is_placed(g2[my - j][mx + i], mx + i, my - j, 1))
                &&& (i <= mx && j <= my ==> is_placed(g2[my - j][mx - i], mx - i, my - j, 1))
            }) by {
                assert(crate::coords::disk_covered(pts@, mx, my, i, j, w as int, h as int));
                if mx + i < w && my + j < h {
                    let c = (((mx + i) as usize), ((my + j) as usize));
                    assert(pts@.contains(c));
                    let k2 = choose|k2: int| 0 <= k2 < pts@.len() && pts@[k2] == c;
                    assert(pts@[k2] == c);
                }
                if i <= mx && my + j < h {
                    let c = (((mx - i) as usize), ((my + j) as usize));
                    assert(pts@.contains(c));
                    let k2 = choose|k2: int| 0 <= k2 < pts@.len() && pts@[k2] == c;
                    assert(pts@[k2] == c);
                }
                if mx + i < w && j <= my {
                    let c = (((mx + i) as usize), ((my - j) as usize));
                    assert(pts@.contains(c));
                    let k2 = choose|k2: int| 0 <= k2 < pts@.len() && pts@[k2] == c;
                    assert(pts@[k2] == c);
                }
                if i <= mx && j <= my {
                    let c = (((mx - i) as usize), ((my - j) as usize));
                    assert(pts@.contains(c));
                    let k2 = choose|k2: int| 0 <= k2 < pts@.len() && pts@[k2] == c;
                    assert(pts@[k2] == c);
                }
            }
        }
    }
}

} // verus!
