//! The grid as a mathematical object, and the two-way content swap.
//!
//! A grid is `h` rows of `w` cells.  The one invariant that must hold
//! between ticks: exactly one cell per coordinate, each cell's stored
//! position equal to its own index (and its parameters in range).
//!
//! A displacement swap exchanges the whole content of two coordinates
//! (kind, velocity, color, parameters) while the position fields keep
//! naming the coordinates: every coordinate's record stays resident.
//! Swaps therefore never change the multiset of material kinds present.

use vstd::prelude::*;
use vstd::multiset::Multiset;
use crate::pixel::{params_ok, vel_ok, Pixel};

verus! {

broadcast use vstd::multiset::group_multiset_axioms, vstd::seq_lib::group_to_multiset_ensures;

/// The view of a vector-of-rows grid as a sequence of sequences.
pub open spec fn gview(g: Vec<Vec<Pixel>>) -> Seq<Seq<Pixel>> {
    g@.map_values(|r: Vec<Pixel>| r@)
}

/// Exactly one cell per coordinate of a `w` x `h` grid, each cell's
/// position its own index, parameters and velocity in range.
pub open spec fn grid_wf(g: Seq<Seq<Pixel>>, w: int, h: int) -> bool {
    &&& g.len() == h
    &&& forall|y: int| 0 <= y < h ==> (#[trigger] g[y]).len() == w
    &&& forall|y: int, x: int|
        0 <= y < h && 0 <= x < w ==> {
            let p = #[trigger] g[y][x];
            &&& p.x == x
            &&& p.y == y
            &&& params_ok(p)
            &&& vel_ok(p)
        }
}

/// The material kinds present in one row, as a multiset.
pub open spec fn row_kinds(r: Seq<Pixel>) -> Multiset<u8> {
    r.map_values(|p: Pixel| p.ptype).to_multiset()
}

/// The material kinds present in the grid, as a multiset.
pub open spec fn grid_kinds(g: Seq<Seq<Pixel>>) -> Multiset<u8>
    decreases g.len(),
{
    if g.len() == 0 {
        Multiset::empty()
    } else {
        row_kinds(g[0]).add(grid_kinds(g.drop_first()))
    }
}

/// The grid with the cell at `(x, y)` replaced.
pub open spec fn grid_set(g: Seq<Seq<Pixel>>, x: int, y: int, p: Pixel) -> Seq<Seq<Pixel>> {
    g.update(y, g[y].update(x, p))
}

/// The grid after the contents of `(x1, y1)` and `(x2, y2)` trade places:
/// each record keeps its own coordinate in its position fields and takes
/// everything else from the other.
pub open spec fn swap_spec(
    g: Seq<Seq<Pixel>>,
    x1: usize,
    y1: usize,
    x2: usize,
    y2: usize,
) -> Seq<Seq<Pixel>> {
    let a = g[y1 as int][x1 as int];
    let b = g[y2 as int][x2 as int];
    grid_set(
        grid_set(g, x1 as int, y1 as int, Pixel { x: x1, y: y1, ..b }),
        x2 as int,
        y2 as int,
        Pixel { x: x2, y: y2, ..a },
    )
}

/// The concrete lengths a well-formed grid's vectors have.
pub proof fn lemma_grid_lens(v: &Vec<Vec<Pixel>>, w: int, h: int)
    requires
        grid_wf(gview(*v), w, h),
    ensures
        v@.len() == h,
        forall|y: int| 0 <= y < h ==> (#[trigger] v@[y])@.len() == w,
{
    assert forall|y: int| 0 <= y < h implies (#[trigger] v@[y])@.len() == w by {
        assert(gview(*v)[y].len() == w);
    }
}

/// Two grids that agree pointwise on kinds hold the same kinds multiset.
pub proof fn lemma_grid_kinds_pointwise(g1: Seq<Seq<Pixel>>, g2: Seq<Seq<Pixel>>)
    requires
        g1.len() == g2.len(),
        forall|y: int| 0 <= y < g1.len() ==> (#[trigger] g1[y]).len() == g2[y].len(),
        forall|y: int, x: int|
            0 <= y < g1.len() && 0 <= x < g1[y].len() ==> (#[trigger] g1[y][x]).ptype
                == g2[y][x].ptype,
    ensures
        grid_kinds(g1) == grid_kinds(g2),
    decreases g1.len(),
{
    if g1.len() > 0 {
        let f = |q: Pixel| q.ptype;
        assert(g1[0].map_values(f) =~= g2[0].map_values(f));
        assert forall|y: int, x: int|
            0 <= y < g1.drop_first().len() && 0 <= x < g1.drop_first()[y].len() implies (
        #[trigger] g1.drop_first()[y][x]).ptype == g2.drop_first()[y][x].ptype by {
            assert(g1[y + 1][x].ptype == g2[y + 1][x].ptype);
        }
        lemma_grid_kinds_pointwise(g1.drop_first(), g2.drop_first());
    }
}

/// Replacing one cell exchanges exactly its kind in the row's multiset.
pub proof fn lemma_row_kinds_update(r: Seq<Pixel>, x: int, p: Pixel)
    requires
        0 <= x < r.len(),
    ensures
        row_kinds(r.update(x, p)) == row_kinds(r).insert(p.ptype).remove(r[x].ptype),
{
    let f = |q: Pixel| q.ptype;
    assert(r.update(x, p).map_values(f) =~= r.map_values(f).update(x, p.ptype));
    vstd::seq_lib::to_multiset_update(r.map_values(f), x, p.ptype);
}

/// Replacing one row trades that row's kinds for the new row's kinds.
pub proof fn lemma_grid_kinds_update_row(g: Seq<Seq<Pixel>>, y: int, r: Seq<Pixel>)
    requires
        0 <= y < g.len(),
    ensures
        grid_kinds(g.update(y, r)).add(row_kinds(g[y])) == grid_kinds(g).add(row_kinds(r)),
    decreases y,
{
    if y == 0 {
        assert(g.update(0, r).drop_first() =~= g.drop_first());
        assert(grid_kinds(g.update(0, r)) == row_kinds(r).add(grid_kinds(g.drop_first())));
        assert(grid_kinds(g.update(0, r)).add(row_kinds(g[0])) =~= grid_kinds(g).add(
            row_kinds(r),
        ));
    } else {
        let gt = g.drop_first();
        assert(g.update(y, r).drop_first() =~= gt.update(y - 1, r));
        assert(g.update(y, r)[0] == g[0]);
        lemma_grid_kinds_update_row(gt, y - 1, r);
        assert(grid_kinds(g.update(y, r)) == row_kinds(g[0]).add(
            grid_kinds(gt.update(y - 1, r)),
        ));
        assert(gt[y - 1] == g[y]);
        assert(grid_kinds(g) == row_kinds(g[0]).add(grid_kinds(gt)));
        assert forall|k: u8|
            grid_kinds(g.update(y, r)).add(row_kinds(g[y])).count(k) == grid_kinds(g).add(
                row_kinds(r),
            ).count(k) by {
            assert(grid_kinds(gt.update(y - 1, r)).add(row_kinds(gt[y - 1])).count(k)
                == grid_kinds(gt).add(row_kinds(r)).count(k));
            assert(row_kinds(g[0]).add(grid_kinds(gt.update(y - 1, r))).count(k) == row_kinds(
                g[0],
            ).count(k) + grid_kinds(gt.update(y - 1, r)).count(k));
            assert(row_kinds(g[0]).add(grid_kinds(gt)).count(k) == row_kinds(g[0]).count(k)
                + grid_kinds(gt).count(k));
        }
        assert(grid_kinds(g.update(y, r)).add(row_kinds(g[y])) =~= grid_kinds(g).add(
            row_kinds(r),
        ));
    }
}

/// A swap leaves the multiset of material kinds unchanged.
pub proof fn lemma_swap_kinds(g: Seq<Seq<Pixel>>, x1: usize, y1: usize, x2: usize, y2: usize)
    requires
        y1 < g.len(),
        y2 < g.len(),
        x1 < g[y1 as int].len(),
        x2 < g[y2 as int].len(),
        (x1, y1) != (x2, y2),
    ensures
        grid_kinds(swap_spec(g, x1, y1, x2, y2)) == grid_kinds(g),
{
    let xi1 = x1 as int;
    let yi1 = y1 as int;
    let xi2 = x2 as int;
    let yi2 = y2 as int;
    let a = g[yi1][xi1];
    let b = g[yi2][xi2];
    let b2 = Pixel { x: x1, y: y1, ..b };
    let a2 = Pixel { x: x2, y: y2, ..a };
    let ka = a.ptype;
    let kb = b.ptype;
    let fin = swap_spec(g, x1, y1, x2, y2);
    if y1 == y2 {
        let row = g[yi1];
        let row2 = row.update(xi1, b2).update(xi2, a2);
        assert(fin =~= g.update(yi1, row2));
        lemma_row_kinds_update(row, xi1, b2);
        lemma_row_kinds_update(row.update(xi1, b2), xi2, a2);
        assert(row.update(xi1, b2)[xi2] == row[xi2]);
        assert(row.map_values(|q: Pixel| q.ptype)[xi1] == ka);
        assert(row.map_values(|q: Pixel| q.ptype)[xi2] == kb);
        assert(row_kinds(row).count(ka) > 0);
        assert(row_kinds(row).count(kb) > 0);
        assert(row_kinds(row2) =~= row_kinds(row));
        lemma_grid_kinds_update_row(g, yi1, row2);
        assert forall|k: u8| grid_kinds(fin).count(k) == grid_kinds(g).count(k) by {
            assert(grid_kinds(g.update(yi1, row2)).add(row_kinds(row)).count(k) == grid_kinds(
                g,
            ).add(row_kinds(row2)).count(k));
        }
        assert(grid_kinds(fin) =~= grid_kinds(g));
    } else {
        let r1 = g[yi1];
        let r2 = g[yi2];
        let r1n = r1.update(xi1, b2);
        let g1 = g.update(yi1, r1n);
        assert(g1[yi2] == r2);
        let r2n = r2.update(xi2, a2);
        assert(fin =~= g1.update(yi2, r2n));
        lemma_row_kinds_update(r1, xi1, b2);
        lemma_row_kinds_update(r2, xi2, a2);
        assert(r1.map_values(|q: Pixel| q.ptype)[xi1] == ka);
        assert(r2.map_values(|q: Pixel| q.ptype)[xi2] == kb);
        assert(row_kinds(r1).count(ka) > 0);
        assert(row_kinds(r2).count(kb) > 0);
        lemma_grid_kinds_update_row(g, yi1, r1n);
        lemma_grid_kinds_update_row(g1, yi2, r2n);
        assert forall|k: u8| grid_kinds(fin).count(k) == grid_kinds(g).count(k) by {
            assert(grid_kinds(fin).add(row_kinds(r2)).count(k) == grid_kinds(g1).add(
                row_kinds(r2n),
            ).count(k));
            assert(grid_kinds(g1).add(row_kinds(r1)).count(k) == grid_kinds(g).add(
                row_kinds(r1n),
            ).count(k));
            assert(row_kinds(r1n).count(k) == row_kinds(r1).insert(kb).remove(ka).count(k));
            assert(row_kinds(r2n).count(k) == row_kinds(r2).insert(ka).remove(kb).count(k));
        }
        assert(grid_kinds(fin) =~= grid_kinds(g));
    }
}

/// Replace the cell at `(x, y)` with a record that carries that
/// coordinate and in-range parameters.  Replacing with the same kind
/// leaves the kinds multiset unchanged.
pub fn set_cell(grid: &mut Vec<Vec<Pixel>>, x: usize, y: usize, p: Pixel, w: usize, h: usize)
    requires
        grid_wf(gview(*old(grid)), w as int, h as int),
        x < w,
        y < h,
        p.x == x,
        p.y == y,
        params_ok(p),
        vel_ok(p),
    ensures
        gview(*final(grid)) == grid_set(gview(*old(grid)), x as int, y as int, p),
        grid_wf(gview(*final(grid)), w as int, h as int),
        gview(*final(grid))[y as int][x as int] == p,
        forall|yy: int, xx: int|
            0 <= yy < h && 0 <= xx < w && !(xx == x && yy == y) ==> #[trigger] gview(
                *final(grid),
            )[yy][xx] == gview(*old(grid))[yy][xx],
        p.ptype == gview(*old(grid))[y as int][x as int].ptype ==> grid_kinds(
            gview(*final(grid)),
        ) == grid_kinds(gview(*old(grid))),
{
    proof {
        lemma_grid_lens(grid, w as int, h as int);
    }
    let ghost g0 = gview(*grid);
    grid[y][x] = p;
    proof {
        assert(gview(*grid) =~= grid_set(g0, x as int, y as int, p));
        let fin = gview(*grid);
        assert forall|yy: int, xx: int| 0 <= yy < h && 0 <= xx < w implies {
            let q = #[trigger] fin[yy][xx];
            q.x == xx && q.y == yy && params_ok(q) && vel_ok(q)
        } by {
            assert(fin[yy].len() == w);
            assert(g0[yy][xx].x == xx);
        }
        if p.ptype == g0[y as int][x as int].ptype {
            lemma_grid_kinds_pointwise(fin, g0);
        }
    }
}

/// Exchange the contents of two distinct coordinates in place, keeping
/// each record's position fields on its own coordinate.
pub fn swap_pix(x1: usize, y1: usize, x2: usize, y2: usize, grid: &mut Vec<Vec<Pixel>>, w: usize, h: usize)
    requires
        grid_wf(gview(*old(grid)), w as int, h as int),
        x1 < w,
        y1 < h,
        x2 < w,
        y2 < h,
        (x1, y1) != (x2, y2),
    ensures
        gview(*final(grid)) == swap_spec(gview(*old(grid)), x1, y1, x2, y2),
        grid_wf(gview(*final(grid)), w as int, h as int),
        grid_kinds(gview(*final(grid))) == grid_kinds(gview(*old(grid))),
{
    let ghost g0 = gview(*old(grid));
    proof {
        assert(grid@.len() == h);
        assert forall|y: int| 0 <= y < h implies (#[trigger] grid@[y])@.len() == w by {
            assert(g0[y].len() == w);
        }
    }
    let a = grid[y1][x1];
    let b = grid[y2][x2];
    let mut b2 = b;
    b2.x = x1;
    b2.y = y1;
    let mut a2 = a;
    a2.x = x2;
    a2.y = y2;
    grid[y1][x1] = b2;
    grid[y2][x2] = a2;
    proof {
        assert(b2 == (Pixel { x: x1, y: y1, ..b }));
        assert(a2 == (Pixel { x: x2, y: y2, ..a }));
        assert(gview(*grid) =~= swap_spec(g0, x1, y1, x2, y2));
        lemma_swap_kinds(g0, x1, y1, x2, y2);
        let fin = swap_spec(g0, x1, y1, x2, y2);
        assert forall|y: int, x: int| 0 <= y < h && 0 <= x < w implies {
            let p = #[trigger] fin[y][x];
            p.x == x && p.y == y && params_ok(p) && vel_ok(p)
        } by {
            assert(fin[y].len() == w);
        }
    }
}

} // verus!
