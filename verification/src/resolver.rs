//! The global resolver: run once per tick after all chunk updates.
//!
//! It stitches the chunk outputs back into one grid, replays the
//! boundary-crossing moves against the merged grid under the global
//! boundary policy, and then runs the catalytic reaction pass in a fixed
//! raster order, in place — a cell visited later may observe an earlier
//! cell's reaction within the same tick.

use vstd::prelude::*;
use crate::chunk::{
    apply_move, apply_move_spec, chunk_moves_fold, chunk_updated, grid_cells,
    lemma_chunk_fold_noop, lemma_grid_cells_member, sort_pixels, sorted_by_key, stepped_cell,
};
use crate::coords::{
    adjacents, adjacents_spec, lemma_adjacents_below, lemma_adjacents_entries, wrap_axis,
    wrapped_coord, MAX_DIM,
};
use crate::elements::{
    base_pixel, base_pixel_spec, find_output, find_output_spec, lemma_builtin_rules,
    reactions_from, registry_wf, rules_table,
};
use crate::grid::{grid_kinds, grid_set, grid_wf, gview, lemma_grid_lens, set_cell};
use crate::pixel::{
    integrate_spec, jitter_ok, lemma_still_cell_rests, params_ok, still_cell, target_of,
    target_x_spec, target_y_spec, vel_ok, Pixel,
};
use crate::rng::SimRng;
use crate::simulate::{
    lemma_axis_split, lemma_chunk_id_coords, lemma_chunk_origin, lemma_split_merge_roundtrip,
    merge_subgrids, merged_grid, sim_wf, subgrid_matches, subgrid_of, subs_view, Simulation,
};

verus! {

broadcast use vstd::multiset::group_multiset_axioms, vstd::seq_lib::group_to_multiset_ensures;

/// The first neighbor, in scan order, whose kind catalyzes one of the
/// cell's rules: the rule's output and the neighbor's coordinate.
pub open spec fn first_react(
    g: Seq<Seq<Pixel>>,
    rules: Seq<(u8, u8)>,
    adj: Seq<(int, int)>,
    i: int,
) -> Option<(u8, (int, int))>
    decreases adj.len() - i,
{
    if i < 0 || i >= adj.len() {
        None
    } else {
        let nk = g[adj[i].1][adj[i].0].ptype;
        match find_output_spec(rules, nk, 0) {
            Some(out) => Some((out, adj[i])),
            None => first_react(g, rules, adj, i + 1),
        }
    }
}

/// A cell whose kind has no rules never reacts, whatever its neighbors.
pub proof fn lemma_first_react_no_rules(g: Seq<Seq<Pixel>>, adj: Seq<(int, int)>, i: int)
    ensures
        first_react(g, Seq::<(u8, u8)>::empty(), adj, i) is None,
    decreases adj.len() - i,
{
    if 0 <= i < adj.len() {
        lemma_first_react_no_rules(g, adj, i + 1);
    }
}

/// Scanning neighbors that are all air or lava under water's single rule
/// (catalyst lava), with at least one lava among them, fires on a lava
/// neighbor and yields air.
pub proof fn lemma_first_react_finds_lava(g: Seq<Seq<Pixel>>, adj: Seq<(int, int)>, i: int)
    requires
        0 <= i,
        forall|k: int|
            i <= k < adj.len() ==> {
                let c = #[trigger] adj[k];
                &&& 0 <= c.1 < g.len()
                &&& 0 <= c.0 < g[c.1].len()
                &&& (g[c.1][c.0].ptype == 1 || g[c.1][c.0].ptype == 4)
            },
        exists|k: int|
            i <= k < adj.len() && g[(#[trigger] adj[k]).1][adj[k].0].ptype == 4,
    ensures
        ({
            let fr = first_react(g, seq![(4u8, 1u8)], adj, i);
            &&& fr is Some
            &&& fr->Some_0.0 == 1
            &&& 0 <= fr->Some_0.1.1 < g.len()
            &&& 0 <= fr->Some_0.1.0 < g[fr->Some_0.1.1].len()
            &&& g[fr->Some_0.1.1][fr->Some_0.1.0].ptype == 4
        }),
    decreases adj.len() - i,
{
    let rules = seq![(4u8, 1u8)];
    let k0 = choose|k: int| i <= k < adj.len() && g[(#[trigger] adj[k]).1][adj[k].0].ptype == 4;
    let nk = g[adj[i].1][adj[i].0].ptype;
    if nk == 4 {
        assert(find_output_spec(rules, 4, 0) == Some(1u8));
    } else {
        assert(find_output_spec(rules, nk, 1) is None);
        assert(find_output_spec(rules, nk, 0) is None);
        assert(k0 > i);
        lemma_first_react_finds_lava(g, adj, i + 1);
    }
}

/// The reaction applied at one cell, in place.  If the cell's kind has a
/// rule whose catalyst matches the first such neighbor, the cell becomes
/// the rule's output; if the catalyst's own table reciprocally maps the
/// original kind, the neighbor is replaced too.
pub open spec fn react_cell_spec(
    g: Seq<Seq<Pixel>>,
    table: Seq<(u8, u8, u8)>,
    em: bool,
    w: int,
    h: int,
    x: int,
    y: int,
) -> Seq<Seq<Pixel>> {
    let elem = g[y][x].ptype;
    let rules = reactions_from(table, elem, 0);
    let adj = adjacents_spec(x, y, em, w, h);
    match first_react(g, rules, adj, 0) {
        None => g,
        Some(fr) => {
            let np = fr.1;
            let g1 = grid_set(g, x, y, base_pixel_spec(fr.0, x as usize, y as usize));
            match find_output_spec(reactions_from(table, g[np.1][np.0].ptype, 0), elem, 0) {
                None => g1,
                Some(out2) => grid_set(
                    g1,
                    np.0,
                    np.1,
                    base_pixel_spec(out2, np.0 as usize, np.1 as usize),
                ),
            }
        },
    }
}

/// Under the built-in table, a cell of air or stone never reacts.
proof fn lemma_react_cell_inert(
    g: Seq<Seq<Pixel>>,
    table: Seq<(u8, u8, u8)>,
    em: bool,
    w: int,
    h: int,
    x: int,
    y: int,
)
    requires
        table == rules_table(),
        0 <= y < g.len(),
        0 <= x < g[y].len(),
        g[y][x].ptype == 1 || g[y][x].ptype == 5,
    ensures
        react_cell_spec(g, table, em, w, h, x, y) == g,
{
    lemma_builtin_rules();
    assert(reactions_from(table, g[y][x].ptype, 0) == Seq::<(u8, u8)>::empty());
    lemma_first_react_no_rules(g, adjacents_spec(x, y, em, w, h), 0);
}

/// Under the built-in table, a water cell whose only non-air neighbor is
/// the lava cell directly below it reacts in place: the water becomes air
/// and, lava's table mapping water back, the lava becomes stone — each at
/// its own coordinate.
proof fn lemma_react_cell_fires(
    g: Seq<Seq<Pixel>>,
    table: Seq<(u8, u8, u8)>,
    em: bool,
    w: int,
    h: int,
    px: int,
    py: int,
)
    requires
        grid_wf(g, w, h),
        1 <= w,
        2 <= h,
        table == rules_table(),
        0 <= px < w,
        0 <= py,
        py + 1 < h,
        g[py][px].ptype == 3,
        g[py + 1][px].ptype == 4,
        forall|y: int, x: int|
            0 <= y < h && 0 <= x < w && !(x == px && y == py) && !(x == px && y == py + 1) ==> (
            #[trigger] g[y][x]).ptype == 1,
    ensures
        react_cell_spec(g, table, em, w, h, px, py) == grid_set(
            grid_set(g, px, py, base_pixel_spec(1, px as usize, py as usize)),
            px,
            py + 1,
            base_pixel_spec(5, px as usize, (py + 1) as usize),
        ),
{
    lemma_builtin_rules();
    let adj = adjacents_spec(px, py, em, w, h);
    lemma_adjacents_entries(px, py, em, w, h);
    assert forall|k: int| 0 <= k < adj.len() implies {
        let c = #[trigger] adj[k];
        &&& 0 <= c.1 < g.len()
        &&& 0 <= c.0 < g[c.1].len()
        &&& (g[c.1][c.0].ptype == 1 || g[c.1][c.0].ptype == 4)
    } by {
        let c = adj[k];
        assert(g[c.1].len() == w);
        if !(c.0 == px && c.1 == py + 1) {
            assert(g[c.1][c.0].ptype == 1);
        }
    }
    lemma_adjacents_below(px, py, em, w, h);
    assert(exists|k: int|
        0 <= k < adj.len() && g[(#[trigger] adj[k]).1][adj[k].0].ptype == 4) by {
        let k0 = choose|k: int| 0 <= k < adj.len() && #[trigger] adj[k] == (px, py + 1);
        assert(g[adj[k0].1][adj[k0].0].ptype == 4);
    }
    lemma_first_react_finds_lava(g, adj, 0);
    assert(reactions_from(table, g[py][px].ptype, 0) == seq![(4u8, 1u8)]);
    let fr = first_react(g, seq![(4u8, 1u8)], adj, 0)->Some_0;
    assert(fr.1 == (px, py + 1)) by {
        if !(fr.1.0 == px && fr.1.1 == py + 1) {
            if fr.1.0 == px && fr.1.1 == py {
                assert(g[fr.1.1][fr.1.0].ptype == 3);
            } else {
                assert(g[fr.1.1][fr.1.0].ptype == 1);
            }
        }
    }
    assert(reactions_from(table, g[py + 1][px].ptype, 0) == seq![(3u8, 5u8), (2u8, 8u8)]);
    assert(find_output_spec(seq![(3u8, 5u8), (2u8, 8u8)], 3, 0) == Some(5u8));
}

/// The raster pass over the scenario grid: no cell reacts before the
/// water cell's turn, the water and lava pair reacts on its turn, and
/// nothing reacts after.
proof fn lemma_react_scenario_upto(
    g: Seq<Seq<Pixel>>,
    table: Seq<(u8, u8, u8)>,
    em: bool,
    w: int,
    h: int,
    px: int,
    py: int,
    k: int,
)
    requires
        grid_wf(g, w, h),
        1 <= w,
        2 <= h,
        table == rules_table(),
        0 <= px < w,
        0 <= py,
        py + 1 < h,
        g[py][px].ptype == 3,
        g[py + 1][px].ptype == 4,
        forall|y: int, x: int|
            0 <= y < h && 0 <= x < w && !(x == px && y == py) && !(x == px && y == py + 1) ==> (
            #[trigger] g[y][x]).ptype == 1,
        0 <= k <= w * h,
    ensures
        react_upto(g, table, em, w, h, k) == if k <= py * w + px {
            g
        } else {
            grid_set(
                grid_set(g, px, py, base_pixel_spec(1, px as usize, py as usize)),
                px,
                py + 1,
                base_pixel_spec(5, px as usize, (py + 1) as usize),
            )
        },
    decreases k,
{
    let pidx = py * w + px;
    let gafter = grid_set(
        grid_set(g, px, py, base_pixel_spec(1, px as usize, py as usize)),
        px,
        py + 1,
        base_pixel_spec(5, px as usize, (py + 1) as usize),
    );
    if k > 0 {
        lemma_react_scenario_upto(g, table, em, w, h, px, py, k - 1);
        let x = (k - 1) % w;
        let y = (k - 1) / w;
        assert(w * h == h * w) by (nonlinear_arith);
        crate::simulate::lemma_axis_coords(k - 1, h, w);
        vstd::arithmetic::div_mod::lemma_fundamental_div_mod(k - 1, w);
        assert(w * y == y * w) by (nonlinear_arith);
        if k - 1 == pidx {
            assert(py * w + px == w * py + px) by (nonlinear_arith);
            vstd::arithmetic::div_mod::lemma_fundamental_div_mod_converse(pidx, w, py, px);
            assert(x == px && y == py);
            lemma_react_cell_fires(g, table, em, w, h, px, py);
        } else {
            assert(!(x == px && y == py)) by {
                if x == px && y == py {
                    assert(w * py + px == py * w + px) by (nonlinear_arith);
                }
            }
            if k - 1 < pidx {
                assert(!(x == px && y == py + 1)) by {
                    if x == px && y == py + 1 {
                        assert(w * (py + 1) + px > py * w + px) by (nonlinear_arith)
                            requires
                                1 <= w,
                                0 <= py,
                        ;
                    }
                }
                assert(g[y][x].ptype == 1);
                assert(g[y].len() == w);
                lemma_react_cell_inert(g, table, em, w, h, x, y);
            } else {
                assert(gafter.len() == h);
                assert forall|yy: int| 0 <= yy < h implies #[trigger] gafter[yy].len() == w by {
                    assert(g[yy].len() == w);
                }
                if x == px && y == py + 1 {
                    assert(gafter[y][x] == base_pixel_spec(5, px as usize, (py + 1) as usize));
                } else {
                    assert(gafter[y][x] == g[y][x]);
                    assert(g[y][x].ptype == 1);
                }
                lemma_react_cell_inert(gafter, table, em, w, h, x, y);
            }
        }
    }
}

/// The reaction pass applied to the first `k` cells in raster (row-major)
/// order, each cell reading the grid as mutated by the cells before it.
pub open spec fn react_upto(
    g: Seq<Seq<Pixel>>,
    table: Seq<(u8, u8, u8)>,
    em: bool,
    w: int,
    h: int,
    k: int,
) -> Seq<Seq<Pixel>>
    decreases k,
{
    if k <= 0 {
        g
    } else {
        let g1 = react_upto(g, table, em, w, h, k - 1);
        react_cell_spec(g1, table, em, w, h, (k - 1) % w, (k - 1) / w)
    }
}

/// Concatenating only empty lists yields the empty sequence.
proof fn lemma_lists_concat_empties(v: Seq<Vec<Pixel>>)
    requires
        forall|i: int| 0 <= i < v.len() ==> (#[trigger] v[i])@ == Seq::<Pixel>::empty(),
    ensures
        lists_concat(v) == Seq::<Pixel>::empty(),
    decreases v.len(),
{
    if v.len() > 0 {
        assert forall|i: int|
            0 <= i < v.drop_first().len() implies (#[trigger] v.drop_first()[i])@
            == Seq::<Pixel>::empty() by {
            assert(v.drop_first()[i] == v[i + 1]);
        }
        lemma_lists_concat_empties(v.drop_first());
        assert(v[0]@ + lists_concat(v.drop_first()) =~= Seq::<Pixel>::empty());
    }
}

/// Chunking cannot affect a tick of still material (each cell at rest and
/// jitter-free, because it is rigid or the gravity constant is zero):
/// whatever the valid chunk layout, every outcome the tick relation admits
/// is exactly the reaction pass over the unchanged grid — no cell moves,
/// none is lost or duplicated, and no move is deferred.  (With moving or
/// jittering material, layouts may resolve contested moves in different
/// orders, so only the scenario level compares them.)
pub proof fn lemma_still_grid_tick_reacts_only(
    sim: Simulation,
    outs: Seq<Vec<Vec<Pixel>>>,
    edges: Seq<Vec<Pixel>>,
    gfinal: Seq<Seq<Pixel>>,
)
    requires
        sim_wf(sim),
        forall|y: int, x: int|
            0 <= y < sim.height && 0 <= x < sim.width ==> still_cell(
                #[trigger] gview(sim.grid)[y][x],
                sim.gravity as int,
            ),
        tick_resolved(sim, outs, edges, gfinal),
    ensures
        gfinal == react_upto(
            gview(sim.grid),
            sim.elements.interactivity@,
            sim.edge_mode,
            sim.width as int,
            sim.height as int,
            sim.width as int * sim.height as int,
        ),
{
    let s = sim.chunk_scale as int;
    let w = sim.width as int;
    let h = sim.height as int;
    let cw = w / s;
    let ch = h / s;
    let g = gview(sim.grid);
    lemma_axis_split(w, s);
    lemma_axis_split(h, s);
    if cw == 0 {
        assert(s * 0 == 0) by (nonlinear_arith);
    }
    if ch == 0 {
        assert(s * 0 == 0) by (nonlinear_arith);
    }

    assert forall|id: int| 0 <= id < sim.chunk_div implies gview(#[trigger] outs[id])
        == subgrid_of(g, (id % s) * cw, (id / s) * ch, cw, ch) && edges[id]@
        == Seq::<Pixel>::empty() by {
        assert(sim.chunk_div == s * s);
        lemma_chunk_id_coords(id, s);
        lemma_chunk_origin(id % s, s, cw, w);
        lemma_chunk_origin(id / s, s, ch, h);
        let ox = (id % s) * cw;
        let oy = (id / s) * ch;
        let sub = subgrid_of(g, ox, oy, cw, ch);
        assert(chunk_updated(
            sub,
            gview(outs[id]),
            edges[id]@,
            cw,
            ch,
            ox,
            oy,
            sim.gravity as int,
            sim.friction as int,
        ));
        let (stepped, order) = choose|stepped: Seq<Seq<Pixel>>, order: Seq<Pixel>|
            {
                &&& #[trigger] chunk_moves_fold(stepped, Seq::empty(), order, cw, ch, ox, oy) == (
                gview(outs[id]),
                edges[id]@,
                )
                &&& stepped.len() == ch
                &&& forall|y: int| 0 <= y < ch ==> (#[trigger] stepped[y]).len() == cw
                &&& forall|y: int, x: int|
                    0 <= y < ch && 0 <= x < cw ==> stepped_cell(
                        sub[y][x],
                        #[trigger] stepped[y][x],
                        sim.gravity as int,
                        sim.friction as int,
                    )
                &&& order.to_multiset() == grid_cells(stepped).to_multiset()
                &&& sorted_by_key(order)
            };
        assert forall|yy: int, xx: int| 0 <= yy < ch && 0 <= xx < cw implies #[trigger] stepped[yy][xx]
            == sub[yy][xx] && still_cell(sub[yy][xx], sim.gravity as int) && params_ok(
            sub[yy][xx],
        ) by {
            let p0 = sub[yy][xx];
            assert(p0 == (Pixel { x: xx as usize, y: yy as usize, ..g[oy + yy][ox + xx] }));
            assert(still_cell(g[oy + yy][ox + xx], sim.gravity as int));
            assert(params_ok(g[oy + yy][ox + xx]));
            lemma_still_cell_rests(p0, sim.gravity as int, sim.friction as int);
            assert(stepped_cell(p0, stepped[yy][xx], sim.gravity as int, sim.friction as int));
            let (dvx, dvy) = choose|dvx: int, dvy: int|
                #[trigger] jitter_ok(p0, sim.gravity as int, dvx, dvy) && stepped[yy][xx]
                    == integrate_spec(p0, sim.gravity as int, sim.friction as int, dvx, dvy);
            assert(stepped[yy][xx] == p0);
        }
        assert(stepped =~~= sub);
        assert forall|i: int|
            0 <= i < order.len() implies target_x_spec(#[trigger] order[i]) == order[i].x
            && target_y_spec(order[i]) == order[i].y by {
            assert(order.contains(order[i]));
            assert(grid_cells(stepped).to_multiset().count(order[i]) > 0);
            assert(grid_cells(stepped).contains(order[i]));
            lemma_grid_cells_member(stepped, order[i]);
            let (yy, xx) = choose|yy: int, xx: int|
                0 <= yy < stepped.len() && 0 <= xx < stepped[yy].len() && (#[trigger] stepped[yy][xx])
                    == order[i];
            lemma_still_cell_rests(stepped[yy][xx], sim.gravity as int, sim.friction as int);
        }
        lemma_chunk_fold_noop(stepped, Seq::empty(), order, cw, ch, ox, oy);
        assert((gview(outs[id]), edges[id]@) == (stepped, Seq::<Pixel>::empty()));
    }

    let merged = merged_grid(outs, s, cw, ch, w, h);
    assert forall|id: int| 0 <= id < s * s implies subgrid_matches(
        g,
        #[trigger] subs_view(outs)[id],
        (id % s) * cw,
        (id / s) * ch,
        cw,
        ch,
    ) by {
        assert(subs_view(outs)[id] == gview(outs[id]));
        lemma_chunk_id_coords(id, s);
        lemma_chunk_origin(id % s, s, cw, w);
        lemma_chunk_origin(id / s, s, ch, h);
    }
    lemma_split_merge_roundtrip(g, subs_view(outs), merged, w, h, s, cw, ch);
    assert(merged == g);

    let (order2, moved) = choose|order2: Seq<Pixel>, moved: Seq<Seq<Pixel>>|
        #[trigger] resolves_to(sim, outs, edges, order2, moved, gfinal);
    assert forall|i: int| 0 <= i < edges.len() implies (#[trigger] edges[i])@
        == Seq::<Pixel>::empty() by {
        assert(gview(outs[i]) == subgrid_of(g, (i % s) * cw, (i / s) * ch, cw, ch) && edges[i]@
            == Seq::<Pixel>::empty());
    }
    lemma_lists_concat_empties(edges);
    assert(order2.to_multiset().len() == 0);
    assert(order2.len() == 0);
    assert(order2 =~= Seq::<Pixel>::empty());
    assert(moved == global_moves_fold(merged, order2, sim.edge_mode, w, h));
    assert(moved == g);
}

/// The reaction scenario, end to end: in an otherwise-still all-air grid
/// holding one water cell with a lava cell directly below it, every
/// outcome a tick admits — under every valid chunk layout — replaces the
/// water with air and, lava's table reciprocally mapping water, the lava
/// with stone, in the same pass, each at its own coordinate, leaving
/// every other cell unchanged.
pub proof fn lemma_water_lava_tick(
    sim: Simulation,
    outs: Seq<Vec<Vec<Pixel>>>,
    edges: Seq<Vec<Pixel>>,
    gfinal: Seq<Seq<Pixel>>,
    px: int,
    py: int,
)
    requires
        sim_wf(sim),
        sim.elements.interactivity@ == rules_table(),
        forall|y: int, x: int|
            0 <= y < sim.height && 0 <= x < sim.width ==> still_cell(
                #[trigger] gview(sim.grid)[y][x],
                sim.gravity as int,
            ),
        0 <= px < sim.width,
        0 <= py,
        py + 1 < sim.height,
        gview(sim.grid)[py][px].ptype == 3,
        gview(sim.grid)[py + 1][px].ptype == 4,
        forall|y: int, x: int|
            0 <= y < sim.height && 0 <= x < sim.width && !(x == px && y == py) && !(x == px && y
                == py + 1) ==> (#[trigger] gview(sim.grid)[y][x]).ptype == 1,
        tick_resolved(sim, outs, edges, gfinal),
    ensures
        gfinal == grid_set(
            grid_set(gview(sim.grid), px, py, base_pixel_spec(1, px as usize, py as usize)),
            px,
            py + 1,
            base_pixel_spec(5, px as usize, (py + 1) as usize),
        ),
{
    lemma_still_grid_tick_reacts_only(sim, outs, edges, gfinal);
    let w = sim.width as int;
    let h = sim.height as int;
    lemma_react_scenario_upto(
        gview(sim.grid),
        sim.elements.interactivity@,
        sim.edge_mode,
        w,
        h,
        px,
        py,
        w * h,
    );
    assert(py * w + px < w * h) by (nonlinear_arith)
        requires
            0 <= py < h,
            0 <= px < w,
            1 <= w,
    ;
}

impl Simulation {
    /// What reaction, if any, fires at `(x, y)` of `grid`: the replacement
    /// kind for the cell, the replacement kind for the catalyst neighbor
    /// where its table reciprocates, and the neighbor's coordinate.
    pub fn check_interacts(&self, x: usize, y: usize, grid: &Vec<Vec<Pixel>>) -> (r: Option<
        (u8, Option<u8>, (usize, usize)),
    >)
        requires
            registry_wf(self.elements),
            1 <= self.width <= MAX_DIM,
            1 <= self.height <= MAX_DIM,
            grid_wf(gview(*grid), self.width as int, self.height as int),
            x < self.width,
            y < self.height,
        ensures
            ({
                let g = gview(*grid);
                let elem = g[y as int][x as int].ptype;
                let rules = reactions_from(self.elements.interactivity@, elem, 0);
                let adj = adjacents_spec(
                    x as int,
                    y as int,
                    self.edge_mode,
                    self.width as int,
                    self.height as int,
                );
                match first_react(g, rules, adj, 0) {
                    None => r is None,
                    Some(fr) => {
                        &&& r is Some
                        &&& r->Some_0.0 == fr.0
                        &&& (r->Some_0.2.0 as int, r->Some_0.2.1 as int) == fr.1
                        &&& r->Some_0.2.0 < self.width
                        &&& r->Some_0.2.1 < self.height
                        &&& r->Some_0.1 == find_output_spec(
                            reactions_from(
                                self.elements.interactivity@,
                                g[fr.1.1][fr.1.0].ptype,
                                0,
                            ),
                            elem,
                            0,
                        )
                    },
                }
            }),
    {
        proof {
            lemma_grid_lens(grid, self.width as int, self.height as int);
        }
        let elem = grid[y][x].ptype;
        let rules = self.elements.reactions_for(elem);
        let adj = adjacents(x, y, self.edge_mode, self.width, self.height);
        let ghost g = gview(*grid);
        let ghost adjs = adjacents_spec(
            x as int,
            y as int,
            self.edge_mode,
            self.width as int,
            self.height as int,
        );
        let n = adj.len();
        let mut i: usize = 0;
        while i < n
            invariant
                i <= n,
                n == adj@.len(),
                registry_wf(self.elements),
                1 <= self.width <= MAX_DIM,
                1 <= self.height <= MAX_DIM,
                grid_wf(g, self.width as int, self.height as int),
                x < self.width,
                y < self.height,
                g == gview(*grid),
                elem == g[y as int][x as int].ptype,
                rules@ == reactions_from(self.elements.interactivity@, elem, 0),
                adjs == adjacents_spec(
                    x as int,
                    y as int,
                    self.edge_mode,
                    self.width as int,
                    self.height as int,
                ),
                crate::coords::coords_view(adj@) == adjs,
                forall|k: int| 0 <= k < n ==> (#[trigger] adj@[k]).0 < self.width && adj@[k].1
                    < self.height,
                first_react(g, rules@, adjs, 0) == first_react(g, rules@, adjs, i as int),
            decreases n - i,
        {
            let (ax, ay) = adj[i];
            proof {
                assert(adjs[i as int] == (ax as int, ay as int));
                lemma_grid_lens(grid, self.width as int, self.height as int);
            }
            let nk = grid[ay][ax].ptype;
            proof {
                assert(nk == g[ay as int][ax as int].ptype);
            }
            let out = find_output(&rules, nk);
            match out {
                Some(o) => {
                    let rrules = self.elements.reactions_for(nk);
                    let rec = find_output(&rrules, elem);
                    return Some((o, rec, (ax, ay)));
                },
                None => {},
            }
            i = i + 1;
        }
        None
    }

    /// The reaction pass: scan the grid in raster order and apply each
    /// cell's first matching reaction in place.
    pub fn react_pass(&mut self)
        requires
            sim_wf(*old(self)),
        ensures
            sim_wf(*final(self)),
            *final(self) == (Simulation { grid: final(self).grid, ..*old(self) }),
            gview(final(self).grid) == react_upto(
                gview(old(self).grid),
                old(self).elements.interactivity@,
                old(self).edge_mode,
                old(self).width as int,
                old(self).height as int,
                old(self).width as int * old(self).height as int,
            ),
    {
        let w = self.width;
        let h = self.height;
        proof {
            assert((w as int) * (h as int) <= 4096 * 4096) by (nonlinear_arith)
                requires
                    1 <= (w as int) <= 4096,
                    1 <= (h as int) <= 4096,
            ;
        }
        let total = w * h;
        let ghost g0 = gview(self.grid);
        let ghost table = self.elements.interactivity@;
        let ghost em = self.edge_mode;
        let mut k: usize = 0;
        while k < total
            invariant
                k <= total,
                total == w * h,
                w == self.width,
                h == self.height,
                sim_wf(*self),
                *self == (Simulation { grid: self.grid, ..*old(self) }),
                gview(self.grid) == react_upto(g0, table, em, w as int, h as int, k as int),
                g0 == gview(old(self).grid),
                table == old(self).elements.interactivity@,
                em == old(self).edge_mode,
            decreases total - k,
        {
            proof {
                assert((h as int) * (w as int) == (w as int) * (h as int)) by (nonlinear_arith);
                crate::simulate::lemma_axis_coords(k as int, h as int, w as int);
            }
            let x = k % w;
            let y = k / w;
            let r = self.check_interacts(x, y, &self.grid);
            let ghost gpre = gview(self.grid);
            match r {
                None => {},
                Some((out, rec, np)) => {
                    let cell = base_pixel(out, x, y);
                    proof {
                        crate::elements::lemma_kind_params(out, x, y);
                    }
                    set_cell(&mut self.grid, x, y, cell, w, h);
                    match rec {
                        None => {},
                        Some(out2) => {
                            let cell2 = base_pixel(out2, np.0, np.1);
                            proof {
                                crate::elements::lemma_kind_params(out2, np.0, np.1);
                            }
                            set_cell(&mut self.grid, np.0, np.1, cell2, w, h);
                        },
                    }
                },
            }
            proof {
                assert(gview(self.grid) == react_cell_spec(
                    gpre,
                    table,
                    em,
                    w as int,
                    h as int,
                    k as int % w as int,
                    k as int / w as int,
                ));
                assert(react_upto(g0, table, em, w as int, h as int, k + 1) == react_cell_spec(
                    react_upto(g0, table, em, w as int, h as int, k as int),
                    table,
                    em,
                    w as int,
                    h as int,
                    k as int % w as int,
                    k as int / w as int,
                ));
            }
            k = k + 1;
        }
    }
}

/// What one deferred move does to the merged grid: the global boundary
/// policy maps its target, and the displacement rule is applied from its
/// recorded source.
pub open spec fn global_move_step(
    g: Seq<Seq<Pixel>>,
    p: Pixel,
    em: bool,
    w: int,
    h: int,
) -> Seq<Seq<Pixel>> {
    let tx = wrap_axis(target_x_spec(p), em, w);
    let ty = wrap_axis(target_y_spec(p), em, h);
    apply_move_spec(g, p.x, p.y, tx as usize, ty as usize)
}

/// The deferred moves applied in sequence, first entry first.
pub open spec fn global_moves_fold(
    g: Seq<Seq<Pixel>>,
    order: Seq<Pixel>,
    em: bool,
    w: int,
    h: int,
) -> Seq<Seq<Pixel>>
    decreases order.len(),
{
    if order.len() == 0 {
        g
    } else {
        global_moves_fold(global_move_step(g, order[0], em, w, h), order.drop_first(), em, w, h)
    }
}

/// Folding one more move applies its step to the fold so far.
pub proof fn lemma_global_fold_snoc(
    g: Seq<Seq<Pixel>>,
    order: Seq<Pixel>,
    p: Pixel,
    em: bool,
    w: int,
    h: int,
)
    ensures
        global_moves_fold(g, order.push(p), em, w, h) == global_move_step(
            global_moves_fold(g, order, em, w, h),
            p,
            em,
            w,
            h,
        ),
    decreases order.len(),
{
    if order.len() == 0 {
        assert(order.push(p)[0] == p);
        let g1 = global_move_step(g, p, em, w, h);
        assert(global_moves_fold(g, order.push(p), em, w, h) == global_moves_fold(
            g1,
            order.push(p).drop_first(),
            em,
            w,
            h,
        ));
        assert(order.push(p).drop_first().len() == 0);
        assert(global_moves_fold(g1, order.push(p).drop_first(), em, w, h) == g1);
        assert(global_moves_fold(g, order, em, w, h) == g);
    } else {
        assert(order.push(p)[0] == order[0]);
        let g1 = global_move_step(g, order[0], em, w, h);
        assert(global_moves_fold(g, order.push(p), em, w, h) == global_moves_fold(
            g1,
            order.push(p).drop_first(),
            em,
            w,
            h,
        ));
        assert(order.push(p).drop_first() =~= order.drop_first().push(p));
        lemma_global_fold_snoc(g1, order.drop_first(), p, em, w, h);
        assert(global_moves_fold(g, order, em, w, h) == global_moves_fold(
            g1,
            order.drop_first(),
            em,
            w,
            h,
        ));
    }
}

/// Replay deferred moves against the merged grid, in ascending key order,
/// under the identical displacement rule, with the global boundary policy
/// applied to each target.  The result is the move fold of some key-sorted
/// arrangement of the deferred moves; movement never changes the multiset
/// of kinds.
pub fn apply_global_moves(
    grid: &mut Vec<Vec<Pixel>>,
    moves: Vec<Pixel>,
    edge_mode: bool,
    w: usize,
    h: usize,
)
    requires
        grid_wf(gview(*old(grid)), w as int, h as int),
        1 <= w <= MAX_DIM,
        1 <= h <= MAX_DIM,
        forall|k: int|
            0 <= k < moves@.len() ==> {
                let e = #[trigger] moves@[k];
                &&& e.x < w
                &&& e.y < h
                &&& params_ok(e)
                &&& vel_ok(e)
            },
    ensures
        grid_wf(gview(*final(grid)), w as int, h as int),
        grid_kinds(gview(*final(grid))) == grid_kinds(gview(*old(grid))),
        exists|order: Seq<Pixel>|
            {
                &&& #[trigger] global_moves_fold(
                    gview(*old(grid)),
                    order,
                    edge_mode,
                    w as int,
                    h as int,
                ) == gview(*final(grid))
                &&& order.to_multiset() == moves@.to_multiset()
                &&& sorted_by_key(order)
            },
{
    let ghost g0 = gview(*grid);
    let mut list = moves;
    let ghost pre = list@;
    sort_pixels(&mut list);
    proof {
        assert forall|k: int|
            0 <= k < list@.len() implies (#[trigger] list@[k]).x < w && list@[k].y < h by {
            let e = list@[k];
            assert(list@.contains(e));
            assert(pre.to_multiset().count(e) > 0);
            assert(pre.contains(e));
            let idx = choose|idx: int| 0 <= idx < pre.len() && pre[idx] == e;
            assert(pre[idx].x < w && pre[idx].y < h);
        }
    }
    let n = list.len();
    let mut k: usize = 0;
    while k < n
        invariant
            k <= n,
            n == list@.len(),
            1 <= w <= MAX_DIM,
            1 <= h <= MAX_DIM,
            g0 == gview(*old(grid)),
            grid_wf(gview(*grid), w as int, h as int),
            grid_kinds(gview(*grid)) == grid_kinds(gview(*old(grid))),
            list@.to_multiset() == moves@.to_multiset(),
            sorted_by_key(list@),
            gview(*grid) == global_moves_fold(g0, list@.take(k as int), edge_mode, w as int, h as int),
            forall|a: int|
                0 <= a < n ==> {
                    let e = #[trigger] list@[a];
                    &&& e.x < w
                    &&& e.y < h
                    &&& params_ok(e)
                    &&& vel_ok(e)
                },
        decreases n - k,
    {
        let pix = list[k];
        let t = target_of(&pix);
        let dest = wrapped_coord(t.0, t.1, edge_mode, w, h);
        proof {
            lemma_global_fold_snoc(g0, list@.take(k as int), pix, edge_mode, w as int, h as int);
            assert(list@.take(k + 1) =~= list@.take(k as int).push(pix));
        }
        apply_move(grid, pix.x, pix.y, dest.0, dest.1, w, h);
        k = k + 1;
    }
    proof {
        assert(list@.take(n as int) =~= list@);
        assert(global_moves_fold(g0, list@, edge_mode, w as int, h as int) == gview(*grid)
            && list@.to_multiset() == moves@.to_multiset() && sorted_by_key(list@));
    }
}

/// All the chunks' edge-case lists as one sequence, chunk order kept.
pub open spec fn lists_concat(v: Seq<Vec<Pixel>>) -> Seq<Pixel>
    decreases v.len(),
{
    if v.len() == 0 {
        Seq::empty()
    } else {
        v[0]@ + lists_concat(v.drop_first())
    }
}

/// Taking one more list appends exactly that list's entries.
pub proof fn lemma_lists_concat_snoc(v: Seq<Vec<Pixel>>, k: int)
    requires
        0 <= k < v.len(),
    ensures
        lists_concat(v.take(k + 1)) == lists_concat(v.take(k)) + v[k]@,
    decreases k,
{
    if k == 0 {
        assert(v.take(1)[0] == v[0]);
        assert(v.take(1).drop_first() =~= Seq::<Vec<Pixel>>::empty());
        assert(lists_concat(v.take(1)) == v[0]@ + lists_concat(v.take(1).drop_first()));
        assert(v.take(0).len() == 0);
        assert(v[0]@ + lists_concat(v.take(1).drop_first()) =~= lists_concat(v.take(0)) + v[0]@);
    } else {
        let vd = v.drop_first();
        assert(v.take(k + 1)[0] == v[0]);
        assert(v.take(k)[0] == v[0]);
        assert(v.take(k + 1).drop_first() =~= vd.take(k));
        assert(v.take(k).drop_first() =~= vd.take(k - 1));
        lemma_lists_concat_snoc(vd, k - 1);
        assert(lists_concat(v.take(k + 1)) == v[0]@ + lists_concat(vd.take(k)));
        assert(lists_concat(v.take(k)) == v[0]@ + lists_concat(vd.take(k - 1)));
        assert(vd[k - 1] == v[k]);
        assert(v[0]@ + (lists_concat(vd.take(k - 1)) + v[k]@) =~= (v[0]@ + lists_concat(
            vd.take(k - 1),
        )) + v[k]@);
    }
}

/// The global resolution relation: from the state `sim0`, the chunk
/// outputs `subgrids`, and their edge-case lists, the tick's final grid
/// `gfinal` is the reaction fold of `moved`, which is in turn the move
/// fold of a key-sorted arrangement `order` of all the deferred moves
/// over the merged chunk outputs.
pub open spec fn resolves_to(
    sim0: Simulation,
    subgrids: Seq<Vec<Vec<Pixel>>>,
    edge_cases: Seq<Vec<Pixel>>,
    order: Seq<Pixel>,
    moved: Seq<Seq<Pixel>>,
    gfinal: Seq<Seq<Pixel>>,
) -> bool {
    let w = sim0.width as int;
    let h = sim0.height as int;
    let em = sim0.edge_mode;
    let merged = merged_grid(
        subgrids,
        sim0.chunk_scale as int,
        w / sim0.chunk_scale as int,
        h / sim0.chunk_scale as int,
        w,
        h,
    );
    &&& order.to_multiset() == lists_concat(edge_cases).to_multiset()
    &&& sorted_by_key(order)
    &&& moved == global_moves_fold(merged, order, em, w, h)
    &&& gfinal == react_upto(moved, sim0.elements.interactivity@, em, w, h, w * h)
}

/// The whole tick relation: each chunk output comes from one chunk update
/// of the old grid's chunk snapshot, and the final grid is their global
/// resolution.  Everything a tick may do is an instance of this relation;
/// the draws of the tick's generators pick which.
pub open spec fn tick_resolved(
    sim0: Simulation,
    outs: Seq<Vec<Vec<Pixel>>>,
    edges: Seq<Vec<Pixel>>,
    gfinal: Seq<Seq<Pixel>>,
) -> bool {
    let s = sim0.chunk_scale as int;
    let cw = sim0.width as int / s;
    let ch = sim0.height as int / s;
    &&& outs.len() == sim0.chunk_div
    &&& edges.len() == sim0.chunk_div
    &&& forall|id: int|
        0 <= id < sim0.chunk_div ==> chunk_updated(
            subgrid_of(gview(sim0.grid), (id % s) * cw, (id / s) * ch, cw, ch),
            gview(#[trigger] outs[id]),
            edges[id]@,
            cw,
            ch,
            (id % s) * cw,
            (id / s) * ch,
            sim0.gravity as int,
            sim0.friction as int,
        )
    &&& exists|order: Seq<Pixel>, moved: Seq<Seq<Pixel>>|
        #[trigger] resolves_to(sim0, outs, edges, order, moved, gfinal)
}

impl Simulation {
    /// Merge the chunk outputs, resolve the boundary-crossing moves, then
    /// run the reaction pass: the whole single-threaded tail of a tick.
    /// The new grid is exactly the reaction fold of the move fold (under
    /// some key-sorted arrangement of the deferred moves) of the merged
    /// chunk outputs.
    pub fn update_whole(&mut self, subgrids: Vec<Vec<Vec<Pixel>>>, edge_cases: Vec<Vec<Pixel>>)
        requires
            sim_wf(*old(self)),
            subgrids@.len() == old(self).chunk_div,
            forall|id: int|
                0 <= id < old(self).chunk_div ==> grid_wf(
                    gview(#[trigger] subgrids@[id]),
                    old(self).width as int / old(self).chunk_scale as int,
                    old(self).height as int / old(self).chunk_scale as int,
                ),
            forall|i: int, j: int|
                0 <= i < edge_cases@.len() && 0 <= j < (#[trigger] edge_cases@[i])@.len() ==> {
                    let e = #[trigger] edge_cases@[i]@[j];
                    &&& e.x < old(self).width
                    &&& e.y < old(self).height
                    &&& params_ok(e)
                    &&& vel_ok(e)
                },
        ensures
            sim_wf(*final(self)),
            *final(self) == (Simulation { grid: final(self).grid, ..*old(self) }),
            exists|order: Seq<Pixel>, moved: Seq<Seq<Pixel>>|
                #[trigger] resolves_to(
                    *old(self),
                    subgrids@,
                    edge_cases@,
                    order,
                    moved,
                    gview(final(self).grid),
                ),
    {
        let s = self.chunk_scale;
        let cw = self.width / s;
        let ch = self.height / s;
        proof {
            lemma_axis_split(self.width as int, s as int);
            lemma_axis_split(self.height as int, s as int);
            if cw == 0 {
                assert(s as int * 0 == 0) by (nonlinear_arith);
            }
            if ch == 0 {
                assert(s as int * 0 == 0) by (nonlinear_arith);
            }
        }
        let merged = merge_subgrids(&subgrids, self.width, self.height, s, cw, ch);
        let ghost gm = gview(merged);
        self.grid = merged;

        let mut moves: Vec<Pixel> = Vec::new();
        let ne = edge_cases.len();
        let mut i: usize = 0;
        while i < ne
            invariant
                i <= ne,
                ne == edge_cases@.len(),
                forall|i2: int, j2: int|
                    0 <= i2 < ne && 0 <= j2 < (#[trigger] edge_cases@[i2])@.len() ==> {
                        let e = #[trigger] edge_cases@[i2]@[j2];
                        &&& e.x < old(self).width
                        &&& e.y < old(self).height
                        &&& params_ok(e)
                        &&& vel_ok(e)
                    },
                moves@ == lists_concat(edge_cases@.take(i as int)),
                forall|a: int|
                    0 <= a < moves@.len() ==> {
                        let e = #[trigger] moves@[a];
                        &&& e.x < old(self).width
                        &&& e.y < old(self).height
                        &&& params_ok(e)
                        &&& vel_ok(e)
                    },
            decreases ne - i,
        {
            let nj = edge_cases[i].len();
            let mut j: usize = 0;
            proof {
                assert(lists_concat(edge_cases@.take(i as int)) + edge_cases@[i as int]@.take(0)
                    =~= moves@);
            }
            while j < nj
                invariant
                    i < ne,
                    j <= nj,
                    ne == edge_cases@.len(),
                    nj == edge_cases@[i as int]@.len(),
                    forall|i2: int, j2: int|
                        0 <= i2 < ne && 0 <= j2 < (#[trigger] edge_cases@[i2])@.len() ==> {
                            let e = #[trigger] edge_cases@[i2]@[j2];
                            &&& e.x < old(self).width
                            &&& e.y < old(self).height
                            &&& params_ok(e)
                            &&& vel_ok(e)
                        },
                    moves@ == lists_concat(edge_cases@.take(i as int)) + edge_cases@[i as int]@.take(
                        j as int,
                    ),
                    forall|a: int|
                        0 <= a < moves@.len() ==> {
                            let e = #[trigger] moves@[a];
                            &&& e.x < old(self).width
                            &&& e.y < old(self).height
                            &&& params_ok(e)
                            &&& vel_ok(e)
                        },
                decreases nj - j,
            {
                let p = edge_cases[i][j];
                proof {
                    assert(moves@.push(p) =~= lists_concat(edge_cases@.take(i as int))
                        + edge_cases@[i as int]@.take(j + 1));
                }
                moves.push(p);
                j = j + 1;
            }
            proof {
                lemma_lists_concat_snoc(edge_cases@, i as int);
                assert(edge_cases@[i as int]@.take(nj as int) =~= edge_cases@[i as int]@);
            }
            i = i + 1;
        }
        proof {
            assert(edge_cases@.take(ne as int) =~= edge_cases@);
            assert(moves@ == lists_concat(edge_cases@));
        }

        let ghost flat = moves@;
        apply_global_moves(&mut self.grid, moves, self.edge_mode, self.width, self.height);
        let ghost moved = gview(self.grid);
        let ghost order = choose|order: Seq<Pixel>|
            {
                &&& #[trigger] global_moves_fold(gm, order, self.edge_mode, self.width as int, self.height as int) == moved
                &&& order.to_multiset() == flat.to_multiset()
                &&& sorted_by_key(order)
            };
        self.react_pass();
        proof {
            assert(resolves_to(*old(self), subgrids@, edge_cases@, order, moved, gview(self.grid)));
        }
    }

    /// One whole tick, deterministic from the given seed: split into chunk
    /// snapshots, update each chunk (each with a generator derived from
    /// the seed and its id alone, so chunks may run in any order), then
    /// merge, resolve boundary moves, and react.  The grid's dimensions
    /// and every configuration field are unchanged: no cell is lost, and
    /// the new grid stands in the tick relation to the old one.
    pub fn tick(&mut self, seed: u64)
        requires
            sim_wf(*old(self)),
        ensures
            sim_wf(*final(self)),
            *final(self) == (Simulation { grid: final(self).grid, ..*old(self) }),
            exists|outs: Seq<Vec<Vec<Pixel>>>, edges: Seq<Vec<Pixel>>|
                #[trigger] tick_resolved(*old(self), outs, edges, gview(final(self).grid)),
    {
        let subs = self.update_grids();
        let s = self.chunk_scale;
        let cw = self.width / s;
        let ch = self.height / s;
        proof {
            lemma_axis_split(self.width as int, s as int);
            lemma_axis_split(self.height as int, s as int);
            if cw == 0 {
                assert(s as int * 0 == 0) by (nonlinear_arith);
            }
            if ch == 0 {
                assert(s as int * 0 == 0) by (nonlinear_arith);
            }
        }
        let ghost subs0 = subs@;
        let mut rest = subs;
        let mut outs: Vec<Vec<Vec<Pixel>>> = Vec::new();
        let mut edges: Vec<Vec<Pixel>> = Vec::new();
        let n = self.chunk_div;
        let mut id: usize = 0;
        while id < n
            invariant
                id <= n,
                n == self.chunk_div,
                s == self.chunk_scale,
                1 <= cw,
                1 <= ch,
                cw == self.width as int / s as int,
                ch == self.height as int / s as int,
                self.width as int == s as int * cw as int,
                self.height as int == s as int * ch as int,
                sim_wf(*self),
                *self == *old(self),
                subs0.len() == n,
                rest@ == subs0.subrange(id as int, n as int),
                forall|k: int|
                    0 <= k < n ==> grid_wf(gview(#[trigger] subs0[k]), cw as int, ch as int),
                forall|k: int|
                    0 <= k < n ==> gview(#[trigger] subs0[k]) == subgrid_of(
                        gview(self.grid),
                        (k % s as int) * cw as int,
                        (k / s as int) * ch as int,
                        cw as int,
                        ch as int,
                    ),
                outs@.len() == id,
                edges@.len() == id,
                forall|k: int|
                    0 <= k < id ==> grid_wf(gview(#[trigger] outs@[k]), cw as int, ch as int),
                forall|k: int|
                    0 <= k < id ==> chunk_updated(
                        subgrid_of(
                            gview(self.grid),
                            (k % s as int) * cw as int,
                            (k / s as int) * ch as int,
                            cw as int,
                            ch as int,
                        ),
                        gview(#[trigger] outs@[k]),
                        edges@[k]@,
                        cw as int,
                        ch as int,
                        (k % s as int) * cw as int,
                        (k / s as int) * ch as int,
                        self.gravity as int,
                        self.friction as int,
                    ),
                forall|i2: int, j2: int|
                    0 <= i2 < id && 0 <= j2 < (#[trigger] edges@[i2])@.len() ==> {
                        let e = #[trigger] edges@[i2]@[j2];
                        &&& e.x < self.width
                        &&& e.y < self.height
                        &&& params_ok(e)
                        &&& vel_ok(e)
                    },
            decreases n - id,
        {
            proof {
                assert(self.chunk_div == s * s);
                crate::simulate::lemma_chunk_id_coords(id as int, s as int);
                crate::simulate::lemma_chunk_origin(
                    (id as int) % (s as int),
                    s as int,
                    cw as int,
                    self.width as int,
                );
                crate::simulate::lemma_chunk_origin(
                    (id as int) / (s as int),
                    s as int,
                    ch as int,
                    self.height as int,
                );
            }
            let cx = id % s;
            let cy = id / s;
            let ox = cx * cw;
            let oy = cy * ch;
            proof {
                assert(ox == (id as int % s as int) * cw as int);
                assert(oy == (id as int / s as int) * ch as int);
            }
            let sub = rest.remove(0);
            proof {
                assert(sub == subs0[id as int]);
                assert(rest@ =~= subs0.subrange(id + 1, n as int));
            }
            let mut crng = SimRng::for_chunk(seed, id as u64);
            let out = crate::chunk::subdate(
                sub,
                id,
                ox,
                oy,
                cw,
                ch,
                self.gravity,
                self.friction,
                &mut crng,
            );
            let (g2, e2, _cid) = out;
            proof {
                assert forall|j2: int| 0 <= j2 < e2@.len() implies {
                    let e = #[trigger] e2@[j2];
                    &&& e.x < self.width
                    &&& e.y < self.height
                    &&& params_ok(e)
                    &&& vel_ok(e)
                } by {
                    assert(ox + cw <= self.width && oy + ch <= self.height);
                }
            }
            outs.push(g2);
            edges.push(e2);
            id = id + 1;
        }
        let ghost outs_v = outs@;
        let ghost edges_v = edges@;
        let ghost pre = *self;
        self.update_whole(outs, edges);
        proof {
            let (order, moved) = choose|order: Seq<Pixel>, moved: Seq<Seq<Pixel>>|
                #[trigger] resolves_to(pre, outs_v, edges_v, order, moved, gview(self.grid));
            assert(pre == *old(self));
            assert(resolves_to(*old(self), outs_v, edges_v, order, moved, gview(self.grid)));
            assert(tick_resolved(*old(self), outs_v, edges_v, gview(self.grid)));
        }
    }

    /// One tick seeded from fresh entropy (the generator is still seeded
    /// once per tick, not per draw).
    pub fn tick_random(&mut self)
        requires
            sim_wf(*old(self)),
        ensures
            sim_wf(*final(self)),
            *final(self) == (Simulation { grid: final(self).grid, ..*old(self) }),
            exists|outs: Seq<Vec<Vec<Pixel>>>, edges: Seq<Vec<Pixel>>|
                #[trigger] tick_resolved(*old(self), outs, edges, gview(final(self).grid)),
    {
        let seed = crate::rng::random_seed();
        self.tick(seed);
    }
}

} // verus!
