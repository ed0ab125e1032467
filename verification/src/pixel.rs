//! The per-grid-point cell record and its physics step.
//!
//! A `Pixel` holds a material kind code, its grid position, a velocity in
//! milli-cells per tick, a display color, and the material's physical
//! parameters (all milli-unit fixed point).  The physics step applies, in
//! order: a random jitter impulse for low-resistance materials, friction
//! damping, gravity, a terminal-velocity clamp, and a dead zone that stills
//! sub-threshold motion.  The step only proposes a move; displacement is
//! decided at grid level.

use vstd::prelude::*;
use vstd::arithmetic::div_mod::lemma_div_is_ordered;
use crate::fixed::{
    abs_i64, abs_spec, clamp_i64, clamp_spec, div1000, div1000_tz, scale_milli, scale_spec,
};
use crate::rng::SimRng;

verus! {

/// Largest velocity magnitude a cell may carry (milli-cells per tick).
/// The physics step clamps to it — a terminal velocity the fixed-point
/// model adds as a machine limit on top of the plain damping-plus-gravity
/// formula, which it follows exactly below this bound.
pub const VEL_MAX: i64 = 1_000_000;

/// Largest density (1.0 in milli-units).
pub const DENSITY_MAX: i64 = 1000;

/// Largest movement-resistance threshold.
pub const FORCE_MAX: i64 = 2000;

/// Largest magnitude of the gravity/friction multipliers.
pub const MULT_MAX: i64 = 2000;

/// Largest global gravity constant.
pub const GRAVITY_MAX: i64 = 2000;

/// Largest global friction constant (1.0: friction never amplifies).
pub const FRICTION_MAX: i64 = 1000;

/// An RGBA color, each channel in milli-units within [0, 1000].
#[derive(Clone, Copy, PartialEq, Eq, Structural, Debug)]
pub struct Rgba {
    pub r: u16,
    pub g: u16,
    pub b: u16,
    pub a: u16,
}

/// One grid coordinate's material, motion, and color state.
#[derive(Clone, Copy, PartialEq, Eq, Structural, Debug)]
pub struct Pixel {
    pub ptype: u8,
    pub x: usize,
    pub y: usize,
    pub vx: i64,
    pub vy: i64,
    pub color: Rgba,
    pub density: i64,
    pub min_force: i64,
    pub gravity_multiplier: i64,
    pub friction_multiplier: i64,
}

/// The physical parameters lie in their documented ranges.
pub open spec fn params_ok(p: Pixel) -> bool {
    &&& 0 <= p.density <= DENSITY_MAX
    &&& 0 <= p.min_force <= FORCE_MAX
    &&& -MULT_MAX <= p.gravity_multiplier <= MULT_MAX
    &&& 0 <= p.friction_multiplier <= FRICTION_MAX
}

/// The velocity lies within the terminal-velocity bound.
pub open spec fn vel_ok(p: Pixel) -> bool {
    &&& -VEL_MAX <= p.vx <= VEL_MAX
    &&& -VEL_MAX <= p.vy <= VEL_MAX
}

impl Pixel {
    pub fn new(
        ptype: u8,
        x: usize,
        y: usize,
        vx: i64,
        vy: i64,
        color: Rgba,
        density: i64,
        min_force: i64,
        gravity_multiplier: i64,
        friction_multiplier: i64,
    ) -> (r: Pixel)
        ensures
            r == (Pixel {
                ptype,
                x,
                y,
                vx,
                vy,
                color,
                density,
                min_force,
                gravity_multiplier,
                friction_multiplier,
            }),
    {
        Pixel {
            ptype,
            x,
            y,
            vx,
            vy,
            color,
            density,
            min_force,
            gravity_multiplier,
            friction_multiplier,
        }
    }

    /// The uninitialized-sentinel cell (kind code 0).
    pub fn default() -> (r: Pixel)
        ensures
            r == default_pixel(),
    {
        Pixel {
            ptype: 0,
            x: 0,
            y: 0,
            vx: 0,
            vy: 0,
            color: Rgba { r: 1000, g: 0, b: 1000, a: 1000 },
            density: 0,
            min_force: 0,
            gravity_multiplier: 0,
            friction_multiplier: 0,
        }
    }
}

pub open spec fn default_pixel() -> Pixel {
    Pixel {
        ptype: 0,
        x: 0,
        y: 0,
        vx: 0,
        vy: 0,
        color: Rgba { r: 1000, g: 0, b: 1000, a: 1000 },
        density: 0,
        min_force: 0,
        gravity_multiplier: 0,
        friction_multiplier: 0,
    }
}

/// A scaled value's magnitude is bounded by the product of the bounds,
/// rescaled.
pub proof fn lemma_scale_bound(v: int, f: int, vb: int, fb: int)
    requires
        -vb <= v <= vb,
        -fb <= f <= fb,
        0 <= vb,
        0 <= fb,
    ensures
        -(vb * fb / 1000) <= scale_spec(v, f) <= vb * fb / 1000,
{
    assert(-(vb * fb) <= v * f <= vb * fb) by (nonlinear_arith)
        requires
            -vb <= v <= vb,
            -fb <= f <= fb,
            0 <= vb,
            0 <= fb,
    ;
    let a = v * f;
    let m = vb * fb;
    if a >= 0 {
        lemma_div_is_ordered(a, m, 1000);
    } else {
        lemma_div_is_ordered(-a, m, 1000);
    }
}

/// Friction damping: the velocity scaled by the global friction constant
/// and then by the material's own friction multiplier.
pub open spec fn damp_spec(v: int, f: int, fm: int) -> int {
    scale_spec(scale_spec(v, f), fm)
}

/// The dead zone: motion below the material's resistance threshold is
/// stilled.
pub open spec fn dead_spec(v: int, mf: int) -> int {
    if mf > abs_spec(v) {
        0
    } else {
        v
    }
}

/// The new horizontal velocity after one physics step with jitter impulse
/// `dvx`.
pub open spec fn vel_step_x(p: Pixel, f: int, dvx: int) -> int {
    dead_spec(
        clamp_spec(
            damp_spec(p.vx + dvx, f, p.friction_multiplier as int),
            -VEL_MAX as int,
            VEL_MAX as int,
        ),
        p.min_force as int,
    )
}

/// The new vertical velocity after one physics step with jitter impulse
/// `dvy`: damping, then the gravity contribution, then clamp and dead zone.
pub open spec fn vel_step_y(p: Pixel, g: int, f: int, dvy: int) -> int {
    dead_spec(
        clamp_spec(
            damp_spec(p.vy + dvy, f, p.friction_multiplier as int) + scale_spec(
                p.gravity_multiplier as int,
                g,
            ),
            -VEL_MAX as int,
            VEL_MAX as int,
        ),
        p.min_force as int,
    )
}

/// The cell after one physics step: only the velocity changes.
pub open spec fn integrate_spec(p: Pixel, g: int, f: int, dvx: int, dvy: int) -> Pixel {
    Pixel { vx: vel_step_x(p, f, dvx) as i64, vy: vel_step_y(p, g, f, dvy) as i64, ..p }
}

/// What a jitter draw may produce: nothing for rigid materials (threshold
/// at or above 0.5) or a zero gravity constant; otherwise either no
/// impulse (the chance gate), or one from the half-open gravity-scaled
/// ranges the draws use: lateral from `[-g*(2-mf), g*(2-mf))`, vertical
/// from the downward-biased `[-g*(1.4-mf), g*(1-mf))`.
pub open spec fn jitter_ok(p: Pixel, g: int, dvx: int, dvy: int) -> bool {
    &&& p.min_force >= 500 ==> dvx == 0 && dvy == 0
    &&& g == 0 ==> dvx == 0 && dvy == 0
    &&& -4000 <= dvx <= 4000
    &&& -4000 <= dvy <= 4000
    &&& p.min_force < 500 ==> {
        let bx = scale_spec(g, 2000 - p.min_force);
        let lo = -scale_spec(g, 1400 - p.min_force);
        let hi = scale_spec(g, 1000 - p.min_force);
        &&& (dvx == 0 || -bx <= dvx < bx)
        &&& (dvy == 0 || lo <= dvy < hi)
    }
}

/// Draw the tick's jitter impulse for one cell.  Free-flowing materials
/// (threshold 0) always receive one; granular materials (threshold below
/// 0.5) receive one with a chance that shrinks as the threshold grows;
/// rigid materials never do.
pub fn jitter_impulse(p: &Pixel, g: i64, rng: &mut SimRng) -> (dv: (i64, i64))
    requires
        params_ok(*p),
        0 <= g <= GRAVITY_MAX,
    ensures
        jitter_ok(*p, g as int, dv.0 as int, dv.1 as int),
{
    let mf = p.min_force;
    let jitter = if mf == 0 {
        true
    } else if mf < 500 {
        let mc = rng.range_i64(0, 1000 - mf);
        mc > mf
    } else {
        false
    };
    if jitter {
        let bx = scale_milli(g, 2000 - mf);
        proof {
            lemma_scale_bound(g as int, 2000 - mf, 2000, 2000);
            assert(g as int * (2000 - mf) >= 0) by (nonlinear_arith)
                requires
                    g >= 0,
                    mf <= 2000,
            ;
        }
        let dvx = rng.range_i64(-bx, bx);
        let lo = scale_milli(g, 1400 - mf);
        proof {
            lemma_scale_bound(g as int, 1400 - mf, 2000, 2000);
            assert(g as int * (1400 - mf) >= 0) by (nonlinear_arith)
                requires
                    g >= 0,
                    mf < 500,
            ;
        }
        let hi = scale_milli(g, 1000 - mf);
        proof {
            lemma_scale_bound(g as int, 1000 - mf, 2000, 2000);
            assert(g as int * (1000 - mf) >= 0) by (nonlinear_arith)
                requires
                    g >= 0,
                    mf < 500,
            ;
        }
        let dvy = rng.range_i64(-lo, hi);
        (dvx, dvy)
    } else {
        (0, 0)
    }
}

/// One physics step on one cell, exactly `integrate_spec`.
pub fn integrate(p: &Pixel, g: i64, f: i64, dvx: i64, dvy: i64) -> (r: Pixel)
    requires
        params_ok(*p),
        vel_ok(*p),
        0 <= g <= GRAVITY_MAX,
        0 <= f <= FRICTION_MAX,
        -8000 <= dvx <= 8000,
        -8000 <= dvy <= 8000,
    ensures
        r == integrate_spec(*p, g as int, f as int, dvx as int, dvy as int),
{
    let vx1 = p.vx + dvx;
    let s1 = scale_milli(vx1, f);
    proof {
        lemma_scale_bound(vx1 as int, f as int, 1_008_000, 1000);
    }
    let vx2 = scale_milli(s1, p.friction_multiplier);
    let vx3 = clamp_i64(vx2, -VEL_MAX, VEL_MAX);
    let ax = abs_i64(vx3);
    let vx = if p.min_force > ax {
        0
    } else {
        vx3
    };

    let vy1 = p.vy + dvy;
    let t1 = scale_milli(vy1, f);
    proof {
        lemma_scale_bound(vy1 as int, f as int, 1_008_000, 1000);
    }
    let vy2 = scale_milli(t1, p.friction_multiplier);
    proof {
        lemma_scale_bound(t1 as int, p.friction_multiplier as int, 1_008_000, 1000);
    }
    let gterm = scale_milli(p.gravity_multiplier, g);
    proof {
        lemma_scale_bound(p.gravity_multiplier as int, g as int, 2000, 2000);
    }
    let vy3 = vy2 + gterm;
    let vy4 = clamp_i64(vy3, -VEL_MAX, VEL_MAX);
    let ay = abs_i64(vy4);
    let vy = if p.min_force > ay {
        0
    } else {
        vy4
    };

    Pixel { vx, vy, ..*p }
}

/// One full physics step: a jitter draw followed by integration.  The
/// result is the integration of *some* impulse the draw may produce.
pub fn step_pixel(p: &Pixel, g: i64, f: i64, rng: &mut SimRng) -> (r: Pixel)
    requires
        params_ok(*p),
        vel_ok(*p),
        0 <= g <= GRAVITY_MAX,
        0 <= f <= FRICTION_MAX,
    ensures
        exists|dvx: int, dvy: int|
            #[trigger] jitter_ok(*p, g as int, dvx, dvy) && r == integrate_spec(
                *p,
                g as int,
                f as int,
                dvx,
                dvy,
            ),
        r.ptype == p.ptype,
        r.x == p.x,
        r.y == p.y,
        r.color == p.color,
        r.density == p.density,
        r.min_force == p.min_force,
        r.gravity_multiplier == p.gravity_multiplier,
        r.friction_multiplier == p.friction_multiplier,
        params_ok(r),
        vel_ok(r),
{
    let (dvx, dvy) = jitter_impulse(p, g, rng);
    let r = integrate(p, g, f, dvx, dvy);
    proof {
        assert(jitter_ok(*p, g as int, dvx as int, dvy as int) && r == integrate_spec(
            *p,
            g as int,
            f as int,
            dvx as int,
            dvy as int,
        ));
    }
    r
}

/// The coordinate this cell's motion proposes: its position displaced by
/// the whole-cell part of its velocity (truncated toward zero), before any
/// boundary policy.
pub open spec fn target_x_spec(p: Pixel) -> int {
    p.x + div1000_tz(p.vx as int)
}

pub open spec fn target_y_spec(p: Pixel) -> int {
    p.y + div1000_tz(p.vy as int)
}

pub fn target_of(p: &Pixel) -> (t: (i64, i64))
    requires
        vel_ok(*p),
        p.x <= 0x0fff_ffff,
        p.y <= 0x0fff_ffff,
    ensures
        t.0 == target_x_spec(*p),
        t.1 == target_y_spec(*p),
{
    let dx = div1000(p.vx);
    let dy = div1000(p.vy);
    ((p.x as i64) + dx, (p.y as i64) + dy)
}

/// A cell that the physics step cannot set in motion: at rest, with no
/// gravity contribution, and never drawing a jitter impulse — because it
/// is rigid (threshold at or above 0.5) or because the gravity constant
/// is zero.
pub open spec fn still_cell(p: Pixel, g: int) -> bool {
    &&& p.vx == 0
    &&& p.vy == 0
    &&& (p.min_force >= 500 || g == 0)
    &&& scale_spec(p.gravity_multiplier as int, g) == 0
}

/// A still cell is a fixed point of the physics step: no jitter impulse is
/// drawn, integration returns the cell unchanged, and its move target is
/// its own coordinate — so it never moves, on this tick or, by the same
/// argument, on any later one.
pub proof fn lemma_still_cell_rests(p: Pixel, g: int, f: int)
    requires
        params_ok(p),
        still_cell(p, g),
    ensures
        forall|dvx: int, dvy: int|
            #[trigger] jitter_ok(p, g, dvx, dvy) ==> integrate_spec(p, g, f, dvx, dvy) == p,
        target_x_spec(p) == p.x,
        target_y_spec(p) == p.y,
{
    assert forall|dvx: int, dvy: int| #[trigger] jitter_ok(p, g, dvx, dvy) implies integrate_spec(
        p,
        g,
        f,
        dvx,
        dvy,
    ) == p by {
        assert(dvx == 0 && dvy == 0);
        crate::fixed::lemma_scale_zero(f);
        crate::fixed::lemma_scale_zero(p.friction_multiplier as int);
        assert(vel_step_x(p, f, 0) == 0);
        assert(vel_step_y(p, g, f, 0) == 0);
    }
}

/// The rigid resting case of the fixed-point law, as the design names it:
/// a movement threshold of at least 0.5, zero velocity, and a zero gravity
/// contribution keep a cell exactly where it is.
pub proof fn lemma_rigid_cell_rests(p: Pixel, g: int, f: int)
    requires
        params_ok(p),
        p.min_force >= 500,
        p.vx == 0,
        p.vy == 0,
        scale_spec(p.gravity_multiplier as int, g) == 0,
    ensures
        forall|dvx: int, dvy: int|
            #[trigger] jitter_ok(p, g, dvx, dvy) ==> integrate_spec(p, g, f, dvx, dvy) == p,
        target_x_spec(p) == p.x,
        target_y_spec(p) == p.y,
{
    lemma_still_cell_rests(p, g, f);
}

} // verus!
