use powder::chunk::{move_key, sort_pixels, subdate};
use powder::elements::base_pixel;
use powder::pixel::Pixel;
use powder::rng::SimRng;
use powder::simulate::{merge_subgrids, Simulation};

/// A quiet test bench: zero gravity makes every jitter impulse zero, so
/// ticks are fully deterministic and nothing moves unless given velocity.
fn calm(edge_mode: bool) -> Simulation {
    Simulation::with_config(40, 40, 4, 0, 990, edge_mode, 7).unwrap()
}

fn count_kind(sim: &Simulation, kind: u8) -> usize {
    let mut n = 0;
    for row in &sim.grid {
        for p in row {
            if p.ptype == kind {
                n += 1;
            }
        }
    }
    n
}

fn place(sim: &mut Simulation, name: &str, x: usize, y: usize) {
    sim.mouse_x = x;
    sim.mouse_y = y;
    sim.place_pixel(name.to_string());
}

#[test]
fn cell_count_is_invariant_over_ticks() {
    let mut sim = Simulation::new();
    place(&mut sim, "sand", 5, 5);
    place(&mut sim, "water", 10, 10);
    place(&mut sim, "stone", 20, 20);
    for t in 0..5 {
        sim.tick(t);
        assert_eq!(sim.grid.len(), 40);
        let mut cells = 0;
        for (y, row) in sim.grid.iter().enumerate() {
            assert_eq!(row.len(), 40);
            for (x, p) in row.iter().enumerate() {
                assert_eq!((p.x, p.y), (x, y));
                cells += 1;
            }
        }
        assert_eq!(cells, 40 * 40);
    }
}

#[test]
fn movement_conserves_the_kind_multiset() {
    // sand and air have no reaction rule, so ticks only displace
    let mut sim = Simulation::new();
    for i in 0..8 {
        place(&mut sim, "sand", 10 + i, 3);
    }
    let sand_before = count_kind(&sim, 2);
    let air_before = count_kind(&sim, 1);
    assert_eq!(sand_before, 8);
    for t in 0..6 {
        sim.tick(1000 + t);
        assert_eq!(count_kind(&sim, 2), sand_before);
        assert_eq!(count_kind(&sim, 1), air_before);
    }
}

#[test]
fn rigid_resting_cell_never_moves() {
    let mut sim = calm(false);
    place(&mut sim, "brick", 5, 5);
    place(&mut sim, "stone", 9, 9);
    for t in 0..4 {
        sim.tick(t);
        assert_eq!(sim.grid[5][5].ptype, 6);
        assert_eq!((sim.grid[5][5].vx, sim.grid[5][5].vy), (0, 0));
        assert_eq!(sim.grid[9][9].ptype, 5);
        assert_eq!((sim.grid[9][9].vx, sim.grid[9][9].vy), (0, 0));
    }
}

#[test]
fn sand_displaces_air_below() {
    let mut sim = calm(false);
    place(&mut sim, "sand", 5, 5);
    sim.grid[5][5].vy = 2000;
    sim.tick(0);
    // the sand fell one cell; the displaced air rose into its place
    assert_eq!(sim.grid[6][5].ptype, 2);
    assert_eq!(sim.grid[5][5].ptype, 1);
    assert_eq!((sim.grid[6][5].x, sim.grid[6][5].y), (5, 6));
    assert_eq!((sim.grid[5][5].x, sim.grid[5][5].y), (5, 5));
}

#[test]
fn same_kind_never_swaps() {
    let mut sim = calm(false);
    place(&mut sim, "sand", 5, 38);
    place(&mut sim, "sand", 5, 39);
    sim.grid[38][5].vy = 2000;
    sim.tick(0);
    // the upper sand's target holds sand: material cannot displace itself
    assert_eq!(sim.grid[38][5].ptype, 2);
    assert_eq!(sim.grid[39][5].ptype, 2);
}

#[test]
fn lighter_material_never_displaces_denser() {
    let mut sim = calm(false);
    place(&mut sim, "sand", 5, 38);
    place(&mut sim, "stone", 5, 39);
    sim.grid[38][5].vy = 2000;
    sim.tick(0);
    // sand (0.8) cannot displace stone (0.94)
    assert_eq!(sim.grid[38][5].ptype, 2);
    assert_eq!(sim.grid[39][5].ptype, 5);
}

#[test]
fn denser_material_displaces_lighter() {
    let mut sim = calm(false);
    place(&mut sim, "stone", 5, 20);
    place(&mut sim, "water", 5, 21);
    sim.grid[20][5].vy = 2000;
    sim.tick(0);
    // stone (0.94) sinks through water (0.5)
    assert_eq!(sim.grid[21][5].ptype, 5);
    assert_eq!(sim.grid[20][5].ptype, 3);
}

#[test]
fn wrap_mode_reappears_on_the_far_side() {
    let mut sim = calm(true);
    place(&mut sim, "stone", 39, 10);
    sim.grid[10][39].vx = 2000;
    sim.tick(0);
    assert_eq!(sim.grid[10][39].ptype, 1);
    assert_eq!(sim.grid[10][0].ptype, 5);
}

#[test]
fn clamp_mode_stays_at_the_edge() {
    let mut sim = calm(false);
    place(&mut sim, "stone", 39, 10);
    sim.grid[10][39].vx = 2000;
    sim.tick(0);
    // the clamped target is the cell itself: no move
    assert_eq!(sim.grid[10][39].ptype, 5);
    assert_eq!(sim.grid[10][0].ptype, 1);
}

#[test]
fn water_and_lava_react_reciprocally() {
    let mut sim = calm(false);
    place(&mut sim, "water", 5, 5);
    place(&mut sim, "lava", 5, 6);
    sim.tick(0);
    // (water, lava) -> air; lava's table maps (lava, water) -> stone
    assert_eq!(sim.grid[5][5].ptype, 1);
    assert_eq!(sim.grid[6][5].ptype, 5);
}

#[test]
fn one_directional_reaction_leaves_the_catalyst() {
    let mut sim = calm(false);
    place(&mut sim, "wood", 5, 5);
    place(&mut sim, "lava", 5, 6);
    sim.tick(0);
    // (wood, lava) -> smoke; lava's table has no rule for wood
    assert_eq!(sim.grid[5][5].ptype, 8);
    assert_eq!(sim.grid[6][5].ptype, 4);
}

#[test]
fn non_adjacent_materials_do_not_react() {
    let mut sim = calm(false);
    place(&mut sim, "water", 5, 5);
    place(&mut sim, "lava", 5, 8);
    sim.tick(0);
    assert_eq!(sim.grid[5][5].ptype, 3);
    assert_eq!(sim.grid[8][5].ptype, 4);
}

#[test]
fn chunk_count_does_not_change_the_tick() {
    let mut one = Simulation::with_config(40, 40, 1, 0, 990, false, 9).unwrap();
    let mut four = Simulation::with_config(40, 40, 4, 0, 990, false, 9).unwrap();
    for sim in [&mut one, &mut four] {
        place(sim, "stone", 19, 10);
        sim.grid[10][19].vx = 2000; // crosses the x = 20 chunk seam
        place(sim, "sand", 10, 19);
        sim.grid[19][10].vy = 2000; // crosses the y = 20 chunk seam
        place(sim, "stone", 30, 30);
        place(sim, "water", 2, 2);
        place(sim, "lava", 2, 3);
    }
    one.tick(42);
    four.tick(42);
    for y in 0..40 {
        for x in 0..40 {
            assert_eq!(one.grid[y][x], four.grid[y][x], "cell ({}, {})", x, y);
        }
    }
    // and the seam-crossing moves really happened
    assert_eq!(four.grid[10][20].ptype, 5);
    assert_eq!(four.grid[20][10].ptype, 2);
}

#[test]
fn splitting_and_merging_is_the_identity() {
    let mut sim = Simulation::new();
    place(&mut sim, "sand", 3, 4);
    place(&mut sim, "stone", 25, 30);
    let subs = sim.update_grids();
    assert_eq!(subs.len(), 4);
    for sub in &subs {
        assert_eq!(sub.len(), 20);
        assert_eq!(sub[0].len(), 20);
    }
    // chunk ids run row-major: chunk 1 starts at (20, 0)
    assert_eq!(subs[0][4][3].ptype, 2);
    assert_eq!(subs[3][10][5].ptype, 5);
    let merged = merge_subgrids(&subs, 40, 40, 2, 20, 20);
    for y in 0..40 {
        for x in 0..40 {
            assert_eq!(merged[y][x], sim.grid[y][x]);
        }
    }
}

#[test]
fn chunk_local_positions_are_rebased() {
    let sim = Simulation::new();
    let subs = sim.update_grids();
    for sub in &subs {
        for (ly, row) in sub.iter().enumerate() {
            for (lx, p) in row.iter().enumerate() {
                assert_eq!((p.x, p.y), (lx, ly));
            }
        }
    }
    // and grid_pos maps a local coordinate back to the absolute one
    assert_eq!(sim.grid_pos(3, 5, 7), (25, 27));
    assert_eq!(sim.grid_pos(0, 0, 0), (0, 0));
}

#[test]
fn moves_sort_ascending_by_momentum_key() {
    let mut rng = SimRng::seeded(1);
    let mut v = vec![
        powder::elements::stone(0, 0, &mut rng),
        powder::elements::sand(1, 0, &mut rng),
        powder::elements::water(2, 0, &mut rng),
        powder::elements::air(3, 0, &mut rng),
    ];
    v[0].vy = -5000;
    v[1].vy = 3000;
    v[2].vy = 1000;
    v[3].vy = 2000;
    let before_kinds = {
        let mut k: Vec<u8> = v.iter().map(|p| p.ptype).collect();
        k.sort();
        k
    };
    sort_pixels(&mut v);
    for i in 1..v.len() {
        assert!(move_key(&v[i - 1]) <= move_key(&v[i]));
    }
    let mut after_kinds: Vec<u8> = v.iter().map(|p| p.ptype).collect();
    after_kinds.sort();
    assert_eq!(before_kinds, after_kinds);
    // stone at -5000 has the most negative key and moves first
    assert_eq!(v[0].ptype, 5);
}

#[test]
fn place_line_fills_the_rectangle() {
    let mut sim = Simulation::new();
    sim.mouse_x = 4;
    sim.mouse_y = 6;
    sim.place_line(2, 3, "stone".to_string());
    for y in 0..40 {
        for x in 0..40 {
            let expect = (2..=4).contains(&x) && (3..=6).contains(&y);
            assert_eq!(sim.grid[y][x].ptype == 5, expect, "cell ({}, {})", x, y);
        }
    }
}

#[test]
fn sea_floods_light_cells_below_the_mouse() {
    let mut sim = Simulation::new();
    place(&mut sim, "stone", 5, 36);
    sim.mouse_x = 0;
    sim.mouse_y = 35;
    sim.sea("water".to_string());
    for y in 35..40 {
        for x in 0..40 {
            if (x, y) == (5, 36) {
                assert_eq!(sim.grid[y][x].ptype, 5); // stone is too dense
            } else {
                assert_eq!(sim.grid[y][x].ptype, 3);
            }
        }
    }
    assert_eq!(sim.grid[34][0].ptype, 1); // above the mouse row: untouched
}

#[test]
fn erase_clears_a_disk_to_air() {
    let mut sim = Simulation::new();
    sim.mouse_x = 10;
    sim.mouse_y = 10;
    sim.place_line(14, 14, "brick".to_string());
    sim.mouse_x = 12;
    sim.mouse_y = 12;
    sim.erase(2, "air".to_string());
    // the whole covered disk (offsets 0 and 1 on each axis) is air now
    for y in 11..=13usize {
        for x in 11..=13usize {
            assert_eq!(sim.grid[y][x].ptype, 1, "cell ({}, {})", x, y);
            assert_eq!((sim.grid[y][x].x, sim.grid[y][x].y), (x, y));
        }
    }
    assert_eq!(sim.grid[10][10].ptype, 6); // outside the disk
    assert_eq!(sim.grid[14][14].ptype, 6);
}

#[test]
fn tick_keeps_configuration_fields() {
    let mut sim = Simulation::new();
    sim.tick_random();
    assert_eq!((sim.width, sim.height), (40, 40));
    assert_eq!((sim.chunk_div, sim.chunk_scale), (4, 2));
    assert_eq!((sim.gravity, sim.friction), (1000, 990));
    assert_eq!(sim.elements._len(), 10);
}

#[test]
fn check_interacts_reports_the_first_match() {
    let mut sim = calm(false);
    place(&mut sim, "water", 5, 5);
    place(&mut sim, "lava", 5, 6);
    let r = sim.check_interacts(5, 5, &sim.grid);
    assert_eq!(r, Some((1, Some(5), (5, 6))));
    // a cell with no matching neighbor reports nothing
    assert_eq!(sim.check_interacts(10, 10, &sim.grid), None);
    // the lava cell reciprocates on its own lookup too
    let r2 = sim.check_interacts(5, 6, &sim.grid);
    assert_eq!(r2, Some((5, Some(1), (5, 5))));
}

#[test]
fn subdate_defers_boundary_crossers_in_absolute_coordinates() {
    // a 4 x 4 chunk whose origin is (20, 40): a stone moving off the
    // right edge cannot be resolved locally
    let mut g: Vec<Vec<powder::pixel::Pixel>> = Vec::new();
    for y in 0..4 {
        let mut row = Vec::new();
        for x in 0..4 {
            row.push(base_pixel(1, x, y));
        }
        g.push(row);
    }
    g[1][3] = base_pixel(5, 3, 1);
    g[1][3].vx = 2000;
    let mut rng = SimRng::seeded(1);
    let (out, edge, id) = subdate(g, 7, 20, 40, 4, 4, 0, 990, &mut rng);
    assert_eq!(id, 7);
    assert_eq!(edge.len(), 1);
    assert_eq!((edge[0].x, edge[0].y), (23, 41));
    assert_eq!(edge[0].ptype, 5);
    assert_eq!(edge[0].vx, 1960); // damped twice by 0.99, truncating
    // the chunk itself keeps the cell in place for the global pass
    assert_eq!(out[1][3].ptype, 5);
}

#[test]
fn equal_density_never_swaps() {
    // smoke and air share a density of 0.01: an exact tie never swaps,
    // the deliberate determinism choice
    let mut sim = calm(false);
    place(&mut sim, "smoke", 20, 20);
    sim.grid[20][20].vy = -2000;
    sim.tick(0);
    assert_eq!(sim.grid[20][20].ptype, 8);
    assert_eq!(sim.grid[19][20].ptype, 1);
    assert_eq!(count_kind(&sim, 8), 1);
}
