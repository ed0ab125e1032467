use powder::elements::{base_pixel, rand_color, sand, spawn_code, stone};
use powder::fixed::{abs_i64, clamp_i64, div1000, scale_milli};
use powder::pixel::{integrate, jitter_impulse, target_of, Pixel, Rgba};
use powder::rng::SimRng;

fn grey() -> Rgba {
    Rgba { r: 500, g: 500, b: 500, a: 1000 }
}

#[test]
fn fixed_point_division_truncates_toward_zero() {
    assert_eq!(div1000(1999), 1);
    assert_eq!(div1000(-1999), -1);
    assert_eq!(div1000(1000), 1);
    assert_eq!(div1000(-1000), -1);
    assert_eq!(div1000(999), 0);
    assert_eq!(div1000(-999), 0);
    assert_eq!(div1000(0), 0);
}

#[test]
fn fixed_point_scaling() {
    assert_eq!(scale_milli(2000, 990), 1980);
    assert_eq!(scale_milli(2000, 500), 1000);
    assert_eq!(scale_milli(-2000, 990), -1980);
    assert_eq!(scale_milli(1980, 990), 1960); // 1960200 / 1000, toward zero
    assert_eq!(scale_milli(1200, 0), 0);
}

#[test]
fn clamp_and_abs() {
    assert_eq!(clamp_i64(5, -3, 3), 3);
    assert_eq!(clamp_i64(-5, -3, 3), -3);
    assert_eq!(clamp_i64(2, -3, 3), 2);
    assert_eq!(abs_i64(-7), 7);
    assert_eq!(abs_i64(7), 7);
}

#[test]
fn rng_range_bounds() {
    let mut rng = SimRng::seeded(123);
    for _ in 0..200 {
        let v = rng.range_i64(-10, 10);
        assert!(-10 <= v && v < 10);
        let b = rng.below(7);
        assert!(b < 7);
    }
    // empty interval yields the lower bound
    assert_eq!(rng.range_i64(5, 5), 5);
    assert_eq!(rng.range_i64(5, 3), 5);
}

#[test]
fn rng_is_deterministic_per_seed() {
    let mut a = SimRng::seeded(42);
    let mut b = SimRng::seeded(42);
    for _ in 0..50 {
        assert_eq!(a.next_u64(), b.next_u64());
    }
}

#[test]
fn integration_damps_and_stills() {
    // a stone cell moving right at 2 cells/tick, no gravity
    let p = Pixel::new(5, 3, 3, 2000, 0, grey(), 940, 600, 1000, 990);
    let r = integrate(&p, 0, 990, 0, 0);
    // damping: 2000 * 0.99 * 0.99 truncated twice
    assert_eq!(r.vx, 1960);
    // the still axis stays in the dead zone
    assert_eq!(r.vy, 0);
    assert_eq!((r.ptype, r.x, r.y), (5, 3, 3));
}

#[test]
fn integration_applies_gravity_multiplier() {
    // air at rest: vy gains exactly gravityMultiplier * g
    let p = base_pixel(1, 2, 2);
    let r = integrate(&p, 1000, 990, 0, 0);
    assert_eq!(r.vy, 10); // 0.01 * 1.0 in milli-units
    assert_eq!(r.vx, 0);
}

#[test]
fn dead_zone_stills_subthreshold_motion() {
    // sand crawling at 0.3 cells/tick is below its 0.4 threshold
    let p = Pixel::new(2, 0, 0, 300, 0, grey(), 800, 400, 1200, 990);
    let r = integrate(&p, 0, 990, 0, 0);
    assert_eq!(r.vx, 0);
}

#[test]
fn rigid_materials_never_jitter() {
    let brick = base_pixel(6, 1, 1);
    let mut rng = SimRng::seeded(7);
    for _ in 0..50 {
        assert_eq!(jitter_impulse(&brick, 2000, &mut rng), (0, 0));
    }
}

#[test]
fn zero_gravity_means_zero_impulse() {
    let mut rng = SimRng::seeded(7);
    let w = base_pixel(3, 1, 1); // water always draws a jitter
    for _ in 0..50 {
        assert_eq!(jitter_impulse(&w, 0, &mut rng), (0, 0));
    }
}

#[test]
fn jitter_impulse_within_gravity_scaled_range() {
    let mut rng = SimRng::seeded(11);
    let w = base_pixel(3, 1, 1); // min_force 0
    for _ in 0..200 {
        let (dvx, dvy) = jitter_impulse(&w, 1000, &mut rng);
        assert!(-2000 <= dvx && dvx <= 2000); // g * (2.0 - 0.0)
        assert!(-1400 <= dvy && dvy <= 1000); // g * (1.4..1.0)
    }
}

#[test]
fn move_target_truncates_velocity() {
    let p = Pixel::new(5, 3, 3, 1960, -2400, grey(), 940, 600, 1000, 990);
    assert_eq!(target_of(&p), (4, 1));
    let q = Pixel::new(5, 3, 3, 999, 0, grey(), 940, 600, 1000, 990);
    assert_eq!(target_of(&q), (3, 3));
}

#[test]
fn factories_carry_material_constants() {
    let mut rng = SimRng::seeded(3);
    let s = sand(4, 5, &mut rng);
    assert_eq!((s.ptype, s.x, s.y), (2, 4, 5));
    assert_eq!((s.density, s.min_force), (800, 400));
    assert_eq!((s.gravity_multiplier, s.friction_multiplier), (1200, 990));
    assert_eq!((s.vx, s.vy), (0, 0));
    let t = stone(0, 0, &mut rng);
    assert_eq!((t.ptype, t.density, t.min_force), (5, 940, 600));
    let d = spawn_code(0, 2, 2, &mut rng);
    assert_eq!((d.ptype, d.density), (0, 0));
}

#[test]
fn spawn_by_name_and_sentinel() {
    let mut rng = SimRng::seeded(3);
    let w = Pixel::spawn(&"water".to_string(), 1, 2, &mut rng);
    assert_eq!((w.ptype, w.x, w.y, w.density), (3, 1, 2, 500));
    let smoke = Pixel::spawn(&"smoke".to_string(), 0, 0, &mut rng);
    assert_eq!((smoke.ptype, smoke.gravity_multiplier), (8, -1500));
    let unknown = Pixel::spawn(&"plutonium".to_string(), 3, 4, &mut rng);
    assert_eq!((unknown.ptype, unknown.x, unknown.y), (0, 3, 4));
}

#[test]
fn color_draws_stay_in_range() {
    let mut rng = SimRng::seeded(9);
    for _ in 0..100 {
        let c = rand_color(950, 200, &mut rng);
        assert!(c <= 1000);
        assert!(c >= 750);
    }
    assert_eq!(rand_color(400, 0, &mut rng), 400);
}

#[test]
fn default_pixel_is_the_sentinel() {
    let d = Pixel::default();
    assert_eq!(d.ptype, 0);
    assert_eq!((d.x, d.y, d.vx, d.vy), (0, 0, 0, 0));
}
