use powder::coords::{adjacents, check_coord, id_coord, radius, rect_pos, wrapped_coord};
use powder::simulate::{exact_sqrt, Simulation};

#[test]
fn bounds_check() {
    assert!(check_coord(0, 0, 10, 10));
    assert!(check_coord(9, 9, 10, 10));
    assert!(!check_coord(-1, 5, 10, 10));
    assert!(!check_coord(5, 10, 10, 10));
    assert!(!check_coord(10, 5, 10, 10));
}

#[test]
fn wrap_mode_crosses_to_the_opposite_edge() {
    assert_eq!(wrapped_coord(-1, 5, true, 10, 10), (9, 5));
    assert_eq!(wrapped_coord(10, 5, true, 10, 10), (0, 5));
    assert_eq!(wrapped_coord(5, -2, true, 10, 10), (5, 9));
    assert_eq!(wrapped_coord(5, 13, true, 10, 10), (5, 0));
    assert_eq!(wrapped_coord(5, 5, true, 10, 10), (5, 5));
}

#[test]
fn clamp_mode_stays_on_the_same_edge() {
    assert_eq!(wrapped_coord(-3, 12, false, 10, 10), (0, 9));
    assert_eq!(wrapped_coord(25, -1, false, 10, 10), (9, 0));
    assert_eq!(wrapped_coord(5, 5, false, 10, 10), (5, 5));
}

#[test]
fn chunk_ids_map_row_major() {
    assert_eq!(id_coord(0, 3), (0, 0));
    assert_eq!(id_coord(2, 3), (2, 0));
    assert_eq!(id_coord(3, 3), (0, 1));
    assert_eq!(id_coord(7, 3), (1, 2));
}

#[test]
fn rect_corners_are_normalized() {
    assert_eq!(rect_pos(5, 2, 1, 7), (1, 2, 5, 7));
    assert_eq!(rect_pos(1, 7, 5, 2), (1, 2, 5, 7));
    assert_eq!(rect_pos(4, 4, 4, 4), (4, 4, 4, 4));
}

#[test]
fn interior_moore_neighborhood_in_scan_order() {
    let adj = adjacents(5, 5, false, 10, 10);
    assert_eq!(
        adj,
        vec![(4, 4), (4, 5), (4, 6), (5, 4), (5, 6), (6, 4), (6, 5), (6, 6)]
    );
}

#[test]
fn corner_neighborhood_under_clamp_folds_onto_itself() {
    // at (0,0) with clamping, offsets that fold back onto the cell are
    // dropped; edge neighbors appear once per surviving offset
    let adj = adjacents(0, 0, false, 10, 10);
    assert_eq!(adj, vec![(0, 1), (0, 1), (1, 0), (1, 0), (1, 1)]);
}

#[test]
fn corner_neighborhood_under_wrap_reaches_the_far_side() {
    let adj = adjacents(0, 0, true, 10, 10);
    assert_eq!(
        adj,
        vec![(9, 9), (9, 0), (9, 1), (0, 9), (0, 1), (1, 9), (1, 0), (1, 1)]
    );
}

#[test]
fn disk_positions_lie_within_the_disk() {
    let pts = radius(5, 5, 3, 10, 10);
    assert!(!pts.is_empty());
    for (x, y) in pts {
        assert!(x < 10 && y < 10);
        let dx = x as i64 - 5;
        let dy = y as i64 - 5;
        assert!(dx * dx + dy * dy <= 9);
        // each axis offset stays strictly below the radius
        assert!(dx.abs() < 3 && dy.abs() < 3);
    }
}

#[test]
fn disk_covers_every_position_within_range() {
    let pts = radius(5, 5, 3, 10, 10);
    for i in 0i64..3 {
        for j in 0i64..3 {
            if i * i + j * j <= 9 {
                for (dx, dy) in [(i, j), (-i, j), (i, -j), (-i, -j)] {
                    let c = ((5 + dx) as usize, (5 + dy) as usize);
                    assert!(pts.contains(&c), "missing {:?}", c);
                }
            }
        }
    }
}

#[test]
fn disk_of_radius_zero_is_empty() {
    assert!(radius(5, 5, 0, 10, 10).is_empty());
}

#[test]
fn clipped_disk_covers_what_lies_inside() {
    // centered at a corner: only the in-grid quadrant is covered
    let pts = radius(0, 0, 2, 10, 10);
    for c in [(0usize, 0usize), (1, 0), (0, 1), (1, 1)] {
        assert!(pts.contains(&c), "missing {:?}", c);
    }
    for (x, y) in pts {
        assert!(x < 10 && y < 10);
    }
}

#[test]
fn disk_respects_grid_bounds() {
    let pts = radius(0, 9, 4, 10, 10);
    for (x, y) in pts {
        assert!(x < 10 && y < 10);
    }
}

#[test]
fn exact_square_roots() {
    assert_eq!(exact_sqrt(0), Some(0));
    assert_eq!(exact_sqrt(1), Some(1));
    assert_eq!(exact_sqrt(4), Some(2));
    assert_eq!(exact_sqrt(16), Some(4));
    assert_eq!(exact_sqrt(65536), Some(256));
    assert_eq!(exact_sqrt(2), None);
    assert_eq!(exact_sqrt(15), None);
}

#[test]
fn configuration_rejects_bad_chunking() {
    // chunk count that is no perfect square
    assert!(Simulation::with_config(40, 40, 3, 1000, 990, false, 0).is_none());
    // root does not divide the dimensions
    assert!(Simulation::with_config(10, 10, 9, 1000, 990, false, 0).is_none());
    // zero-size grid
    assert!(Simulation::with_config(0, 40, 4, 1000, 990, false, 0).is_none());
    // out-of-range constants
    assert!(Simulation::with_config(40, 40, 4, -1, 990, false, 0).is_none());
    assert!(Simulation::with_config(40, 40, 4, 1000, 1001, false, 0).is_none());
}

#[test]
fn configuration_accepts_even_tilings() {
    let sim = Simulation::with_config(20, 30, 4, 1000, 990, true, 5).unwrap();
    assert_eq!((sim.width, sim.height), (20, 30));
    assert_eq!((sim.chunk_div, sim.chunk_scale), (4, 2));
    assert!(sim.edge_mode);
    // every cell starts as air at its own coordinate
    for y in 0..30 {
        for x in 0..20 {
            let p = &sim.grid[y][x];
            assert_eq!((p.ptype, p.x, p.y), (1, x, y));
        }
    }
}

#[test]
fn single_chunk_layout_is_valid() {
    let sim = Simulation::with_config(7, 7, 1, 1000, 990, false, 0).unwrap();
    assert_eq!(sim.chunk_scale, 1);
}
