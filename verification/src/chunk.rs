//! The chunk updater: one tick's candidate moves on an isolated chunk
//! snapshot, and the displacement rule they are applied under.
//!
//! Moves are applied in ascending order of the key `(vx + vy) * density`:
//! low-momentum, low-density content moves first, so denser and faster
//! content, moving later, wins contested destinations.  A move whose
//! target leaves the chunk cannot be resolved locally and is returned as
//! an edge case, in absolute coordinates, for the global pass.

use vstd::prelude::*;
use crate::coords::{check_coord, in_bounds_spec, MAX_DIM};
use crate::grid::{
    grid_kinds, grid_set, grid_wf, gview, lemma_grid_lens, set_cell, swap_pix, swap_spec,
};
use crate::pixel::{
    integrate_spec, jitter_ok, lemma_still_cell_rests, params_ok, step_pixel, still_cell,
    target_of, target_x_spec, target_y_spec, vel_ok, Pixel, FRICTION_MAX, GRAVITY_MAX,
};
use crate::fixed::scale_spec;
use crate::rng::SimRng;

verus! {

broadcast use vstd::multiset::group_multiset_axioms, vstd::seq_lib::group_to_multiset_ensures;

/// The application-order key of a cell's move.
pub open spec fn move_key_spec(p: Pixel) -> int {
    (p.vx + p.vy) * p.density
}

/// Ascending by move key.
pub open spec fn sorted_by_key(s: Seq<Pixel>) -> bool {
    forall|i: int, j: int|
        0 <= i < j < s.len() ==> move_key_spec(#[trigger] s[i]) <= move_key_spec(#[trigger] s[j])
}

pub fn move_key(p: &Pixel) -> (k: i64)
    requires
        params_ok(*p),
        vel_ok(*p),
    ensures
        k == move_key_spec(*p),
{
    let s = p.vx + p.vy;
    assert(-2_000_000_000_000 <= s * p.density <= 2_000_000_000_000) by (nonlinear_arith)
        requires
            -2_000_000 <= s <= 2_000_000,
            0 <= p.density <= 1000,
    ;
    s * p.density
}

/// Exchanging two entries of a sequence keeps its multiset.
pub proof fn lemma_seq_swap_multiset<A>(s: Seq<A>, i: int, j: int)
    requires
        0 <= i < s.len(),
        0 <= j < s.len(),
    ensures
        s.update(i, s[j]).update(j, s[i]).to_multiset() == s.to_multiset(),
{
    let s2 = s.update(i, s[j]).update(j, s[i]);
    if i == j {
        assert(s2 =~= s);
    } else {
        vstd::seq_lib::to_multiset_update(s, i, s[j]);
        vstd::seq_lib::to_multiset_update(s.update(i, s[j]), j, s[i]);
        assert(s.update(i, s[j])[j] == s[j]);
        assert(s.to_multiset().count(s[i]) > 0);
        assert(s.update(i, s[j]).to_multiset().count(s[j]) > 0);
        assert(s2.to_multiset() =~= s.to_multiset());
    }
}

/// Sort cells ascending by move key (a permutation: the multiset of cells
/// is unchanged).
pub fn sort_pixels(v: &mut Vec<Pixel>)
    requires
        forall|i: int|
            0 <= i < old(v)@.len() ==> params_ok(#[trigger] old(v)@[i]) && vel_ok(old(v)@[i]),
    ensures
        final(v)@.to_multiset() == old(v)@.to_multiset(),
        final(v)@.len() == old(v)@.len(),
        sorted_by_key(final(v)@),
        forall|i: int| 0 <= i < final(v)@.len() ==> params_ok(#[trigger] final(v)@[i]) && vel_ok(final(v)@[i]),
{
    let n = v.len();
    let mut i: usize = 0;
    while i < n
        invariant
            i <= n,
            n == v@.len(),
            v@.to_multiset() == old(v)@.to_multiset(),
            forall|a: int| 0 <= a < n ==> params_ok(#[trigger] v@[a]) && vel_ok(v@[a]),
            forall|a: int, b: int|
                0 <= a < b < i ==> move_key_spec(#[trigger] v@[a]) <= move_key_spec(
                    #[trigger] v@[b],
                ),
            forall|a: int, b: int|
                0 <= a < i <= b < n ==> move_key_spec(#[trigger] v@[a]) <= move_key_spec(
                    #[trigger] v@[b],
                ),
        decreases n - i,
    {
        let mut m: usize = i;
        let mut j: usize = i + 1;
        while j < n
            invariant
                i <= m < j <= n,
                n == v@.len(),
                v@.to_multiset() == old(v)@.to_multiset(),
                forall|a: int| 0 <= a < n ==> params_ok(#[trigger] v@[a]) && vel_ok(v@[a]),
                forall|a: int, b: int|
                    0 <= a < b < i ==> move_key_spec(#[trigger] v@[a]) <= move_key_spec(
                        #[trigger] v@[b],
                    ),
                forall|a: int, b: int|
                    0 <= a < i <= b < n ==> move_key_spec(#[trigger] v@[a]) <= move_key_spec(
                        #[trigger] v@[b],
                    ),
                forall|a: int|
                    i <= a < j ==> move_key_spec(v@[m as int]) <= move_key_spec(#[trigger] v@[a]),
            decreases n - j,
        {
            if move_key(&v[j]) < move_key(&v[m]) {
                m = j;
            }
            j = j + 1;
        }
        let ghost s = v@;
        let a = v[i];
        let b = v[m];
        v[i] = b;
        v[m] = a;
        proof {
            assert(v@ =~= s.update(i as int, s[m as int]).update(m as int, s[i as int]));
            lemma_seq_swap_multiset(s, i as int, m as int);
            assert forall|x: int, y: int|
                0 <= x < y < i + 1 implies move_key_spec(#[trigger] v@[x]) <= move_key_spec(
                #[trigger] v@[y],
            ) by {
                assert(v@[y] == s[m as int] || v@[y] == s[y]);
            }
            assert forall|x: int, y: int|
                0 <= x < i + 1 <= y < n implies move_key_spec(#[trigger] v@[x]) <= move_key_spec(
                #[trigger] v@[y],
            ) by {
                assert(v@[y] == s[i as int] || v@[y] == s[y]);
                assert(v@[x] == s[m as int] || v@[x] == s[x]);
            }
        }
        i = i + 1;
    }
}

/// The displacement rule: real content (not the sentinel kind), a
/// different material at the destination, and strictly lower density
/// there.  Denser-or-equal material is never displaced by lighter; equal
/// density never swaps.
pub open spec fn may_displace(src: Pixel, dst: Pixel) -> bool {
    &&& src.ptype != 0
    &&& dst.ptype != src.ptype
    &&& dst.density < src.density
}

/// What one move does to the grid: the contents of source and destination
/// trade places exactly when the destination differs and the rule allows
/// it; otherwise nothing.
pub open spec fn apply_move_spec(
    g: Seq<Seq<Pixel>>,
    sx: usize,
    sy: usize,
    dx: usize,
    dy: usize,
) -> Seq<Seq<Pixel>> {
    if (sx, sy) != (dx, dy) && may_displace(g[sy as int][sx as int], g[dy as int][dx as int]) {
        swap_spec(g, sx, sy, dx, dy)
    } else {
        g
    }
}

/// Apply the displacement rule for one move against the current grid: the
/// contents of source and destination trade places exactly when the rule
/// allows it, and the multiset of kinds never changes.
pub fn apply_move(
    grid: &mut Vec<Vec<Pixel>>,
    sx: usize,
    sy: usize,
    dx: usize,
    dy: usize,
    w: usize,
    h: usize,
) -> (moved: bool)
    requires
        grid_wf(gview(*old(grid)), w as int, h as int),
        sx < w,
        sy < h,
        dx < w,
        dy < h,
    ensures
        grid_wf(gview(*final(grid)), w as int, h as int),
        moved == ((sx, sy) != (dx, dy) && may_displace(
            gview(*old(grid))[sy as int][sx as int],
            gview(*old(grid))[dy as int][dx as int],
        )),
        moved ==> gview(*final(grid)) == swap_spec(gview(*old(grid)), sx, sy, dx, dy),
        !moved ==> gview(*final(grid)) == gview(*old(grid)),
        gview(*final(grid)) == apply_move_spec(gview(*old(grid)), sx, sy, dx, dy),
        grid_kinds(gview(*final(grid))) == grid_kinds(gview(*old(grid))),
{
    proof {
        lemma_grid_lens(grid, w as int, h as int);
    }
    if sx == dx && sy == dy {
        return false;
    }
    let s = grid[sy][sx];
    let d = grid[dy][dx];
    if s.ptype == 0 || d.ptype == s.ptype || d.density >= s.density {
        return false;
    }
    swap_pix(sx, sy, dx, dy, grid, w, h);
    true
}

/// One cell advanced by the physics step under some admissible jitter
/// draw.
pub open spec fn stepped_cell(p0: Pixel, p1: Pixel, g: int, f: int) -> bool {
    exists|dvx: int, dvy: int|
        #[trigger] jitter_ok(p0, g, dvx, dvy) && p1 == integrate_spec(p0, g, f, dvx, dvy)
}

/// The grid's cells as one sequence, row-major.
pub open spec fn grid_cells(g: Seq<Seq<Pixel>>) -> Seq<Pixel>
    decreases g.len(),
{
    if g.len() == 0 {
        Seq::empty()
    } else {
        g[0] + grid_cells(g.drop_first())
    }
}

/// Taking one more row appends exactly that row's cells.
pub proof fn lemma_grid_cells_snoc(g: Seq<Seq<Pixel>>, k: int)
    requires
        0 <= k < g.len(),
    ensures
        grid_cells(g.take(k + 1)) == grid_cells(g.take(k)) + g[k],
    decreases k,
{
    if k == 0 {
        assert(g.take(1)[0] == g[0]);
        assert(g.take(1).drop_first() =~= Seq::<Seq<Pixel>>::empty());
        assert(grid_cells(g.take(1)) == g[0] + grid_cells(g.take(1).drop_first()));
        assert(g.take(0).len() == 0);
        assert(g[0] + grid_cells(g.take(1).drop_first()) =~= grid_cells(g.take(0)) + g[0]);
    } else {
        let gd = g.drop_first();
        assert(g.take(k + 1)[0] == g[0]);
        assert(g.take(k)[0] == g[0]);
        assert(g.take(k + 1).drop_first() =~= gd.take(k));
        assert(g.take(k).drop_first() =~= gd.take(k - 1));
        lemma_grid_cells_snoc(gd, k - 1);
        assert(grid_cells(g.take(k + 1)) == g[0] + grid_cells(gd.take(k)));
        assert(grid_cells(g.take(k)) == g[0] + grid_cells(gd.take(k - 1)));
        assert(gd[k - 1] == g[k]);
        assert(g[0] + (grid_cells(gd.take(k - 1)) + g[k]) =~= (g[0] + grid_cells(gd.take(k - 1)))
            + g[k]);
    }
}

/// One candidate's move in the chunk pass: a move onto its own cell does
/// nothing, a target outside the chunk defers the cell (rebased to
/// absolute coordinates) to the edge list, and an in-chunk target goes
/// through the displacement rule.
pub open spec fn chunk_move_step(
    g: Seq<Seq<Pixel>>,
    e: Seq<Pixel>,
    p: Pixel,
    cw: int,
    ch: int,
    ox: int,
    oy: int,
) -> (Seq<Seq<Pixel>>, Seq<Pixel>) {
    let tx = target_x_spec(p);
    let ty = target_y_spec(p);
    if tx == p.x && ty == p.y {
        (g, e)
    } else if !in_bounds_spec(tx, ty, cw, ch) {
        (g, e.push(Pixel { x: (p.x + ox) as usize, y: (p.y + oy) as usize, ..p }))
    } else {
        (apply_move_spec(g, p.x, p.y, tx as usize, ty as usize), e)
    }
}

/// The candidates' moves applied in sequence, first entry first.
pub open spec fn chunk_moves_fold(
    g: Seq<Seq<Pixel>>,
    e: Seq<Pixel>,
    order: Seq<Pixel>,
    cw: int,
    ch: int,
    ox: int,
    oy: int,
) -> (Seq<Seq<Pixel>>, Seq<Pixel>)
    decreases order.len(),
{
    if order.len() == 0 {
        (g, e)
    } else {
        let st = chunk_move_step(g, e, order[0], cw, ch, ox, oy);
        chunk_moves_fold(st.0, st.1, order.drop_first(), cw, ch, ox, oy)
    }
}

/// Folding one more candidate applies its step to the fold so far.
pub proof fn lemma_chunk_fold_snoc(
    g: Seq<Seq<Pixel>>,
    e: Seq<Pixel>,
    order: Seq<Pixel>,
    p: Pixel,
    cw: int,
    ch: int,
    ox: int,
    oy: int,
)
    ensures
        chunk_moves_fold(g, e, order.push(p), cw, ch, ox, oy) == ({
            let st = chunk_moves_fold(g, e, order, cw, ch, ox, oy);
            chunk_move_step(st.0, st.1, p, cw, ch, ox, oy)
        }),
    decreases order.len(),
{
    if order.len() == 0 {
        assert(order.push(p)[0] == p);
        let st = chunk_move_step(g, e, p, cw, ch, ox, oy);
        assert(chunk_moves_fold(g, e, order.push(p), cw, ch, ox, oy) == chunk_moves_fold(
            st.0,
            st.1,
            order.push(p).drop_first(),
            cw,
            ch,
            ox,
            oy,
        ));
        assert(order.push(p).drop_first().len() == 0);
        assert(chunk_moves_fold(st.0, st.1, order.push(p).drop_first(), cw, ch, ox, oy) == st);
        assert(chunk_moves_fold(g, e, order, cw, ch, ox, oy) == (g, e));
    } else {
        assert(order.push(p)[0] == order[0]);
        let st = chunk_move_step(g, e, order[0], cw, ch, ox, oy);
        assert(chunk_moves_fold(g, e, order.push(p), cw, ch, ox, oy) == chunk_moves_fold(
            st.0,
            st.1,
            order.push(p).drop_first(),
            cw,
            ch,
            ox,
            oy,
        ));
        assert(order.push(p).drop_first() =~= order.drop_first().push(p));
        lemma_chunk_fold_snoc(st.0, st.1, order.drop_first(), p, cw, ch, ox, oy);
        assert(chunk_moves_fold(g, e, order, cw, ch, ox, oy) == chunk_moves_fold(
            st.0,
            st.1,
            order.drop_first(),
            cw,
            ch,
            ox,
            oy,
        ));
    }
}

/// A cell present among a grid's cells sits at some coordinate of it.
pub proof fn lemma_grid_cells_member(g: Seq<Seq<Pixel>>, p: Pixel)
    requires
        grid_cells(g).contains(p),
    ensures
        exists|y: int, x: int|
            0 <= y < g.len() && 0 <= x < g[y].len() && (#[trigger] g[y][x]) == p,
    decreases g.len(),
{
    let i = choose|i: int| 0 <= i < grid_cells(g).len() && grid_cells(g)[i] == p;
    assert(grid_cells(g) == g[0] + grid_cells(g.drop_first()));
    if i < g[0].len() {
        assert(g[0][i] == p);
    } else {
        assert(grid_cells(g.drop_first())[i - g[0].len()] == p);
        assert(grid_cells(g.drop_first()).contains(p));
        lemma_grid_cells_member(g.drop_first(), p);
        let (y, x) = choose|y: int, x: int|
            0 <= y < g.drop_first().len() && 0 <= x < g.drop_first()[y].len() && (#[trigger] g
                .drop_first()[y][x]) == p;
        assert(g[y + 1][x] == p);
    }
}

/// Candidates whose target is their own cell leave the chunk pass alone.
pub proof fn lemma_chunk_fold_noop(
    g: Seq<Seq<Pixel>>,
    e: Seq<Pixel>,
    order: Seq<Pixel>,
    cw: int,
    ch: int,
    ox: int,
    oy: int,
)
    requires
        forall|i: int|
            0 <= i < order.len() ==> target_x_spec(#[trigger] order[i]) == order[i].x
                && target_y_spec(order[i]) == order[i].y,
    ensures
        chunk_moves_fold(g, e, order, cw, ch, ox, oy) == (g, e),
    decreases order.len(),
{
    if order.len() > 0 {
        assert(chunk_move_step(g, e, order[0], cw, ch, ox, oy) == (g, e));
        assert forall|i: int|
            0 <= i < order.drop_first().len() implies target_x_spec(
            #[trigger] order.drop_first()[i],
        ) == order.drop_first()[i].x && target_y_spec(order.drop_first()[i])
            == order.drop_first()[i].y by {
            assert(order.drop_first()[i] == order[i + 1]);
        }
        lemma_chunk_fold_noop(g, e, order.drop_first(), cw, ch, ox, oy);
    }
}

/// A value sitting at exactly one index of a sequence is counted once.
pub proof fn lemma_seq_count_unique<A>(s: Seq<A>, p: A, k: int)
    requires
        0 <= k < s.len(),
        s[k] == p,
        forall|i: int| 0 <= i < s.len() && i != k ==> s[i] != p,
    ensures
        s.to_multiset().count(p) == 1,
{
    vstd::seq_lib::to_multiset_remove(s, k);
    let rest = s.remove(k);
    assert(forall|i: int| 0 <= i < rest.len() ==> rest[i] != p);
    assert(!rest.contains(p));
    assert(rest.to_multiset().count(p) == 0);
    assert(s.to_multiset().count(p) > 0);
}

/// A cell sitting at exactly one coordinate of a grid appears exactly once
/// among its cells.
pub proof fn lemma_grid_cells_count_unique(g: Seq<Seq<Pixel>>, p: Pixel, mx: int, my: int)
    requires
        0 <= my < g.len(),
        0 <= mx < g[my].len(),
        g[my][mx] == p,
        forall|y: int, x: int|
            0 <= y < g.len() && 0 <= x < g[y].len() && !(x == mx && y == my) ==> (#[trigger] g[y][x])
                != p,
    ensures
        grid_cells(g).to_multiset().count(p) == 1,
    decreases g.len(),
{
    broadcast use vstd::seq_lib::lemma_multiset_commutative;

    assert(grid_cells(g) == g[0] + grid_cells(g.drop_first()));
    let gd = g.drop_first();
    if my == 0 {
        lemma_seq_count_unique(g[0], p, mx);
        assert forall|y: int, x: int|
            0 <= y < gd.len() && 0 <= x < gd[y].len() implies (#[trigger] gd[y][x]) != p by {
            assert(g[y + 1][x] != p);
        }
        assert forall|i: int| 0 <= i < grid_cells(gd).len() implies grid_cells(gd)[i] != p by {
            if grid_cells(gd)[i] == p {
                assert(grid_cells(gd).contains(p));
                lemma_grid_cells_member(gd, p);
            }
        }
        assert(!grid_cells(gd).contains(p));
        assert(grid_cells(gd).to_multiset().count(p) == 0);
    } else {
        assert forall|i: int| 0 <= i < g[0].len() implies g[0][i] != p by {}
        assert(!g[0].contains(p));
        assert(g[0].to_multiset().count(p) == 0);
        assert(gd[my - 1][mx] == p);
        assert forall|y: int, x: int|
            0 <= y < gd.len() && 0 <= x < gd[y].len() && !(x == mx && y == my - 1) implies (
        #[trigger] gd[y][x]) != p by {
            assert(g[y + 1][x] != p);
        }
        lemma_grid_cells_count_unique(gd, p, mx, my - 1);
    }
}

/// A fold whose candidates all target their own cell, except one value
/// that occurs exactly once, is that one candidate's step.
pub proof fn lemma_fold_single_mover(
    g: Seq<Seq<Pixel>>,
    e: Seq<Pixel>,
    order: Seq<Pixel>,
    m: Pixel,
    cw: int,
    ch: int,
    ox: int,
    oy: int,
)
    requires
        forall|i: int|
            0 <= i < order.len() ==> (#[trigger] order[i] == m || (target_x_spec(order[i])
                == order[i].x && target_y_spec(order[i]) == order[i].y)),
        order.to_multiset().count(m) == 1,
    ensures
        chunk_moves_fold(g, e, order, cw, ch, ox, oy) == chunk_move_step(g, e, m, cw, ch, ox, oy),
    decreases order.len(),
{
    broadcast use vstd::seq_lib::group_to_multiset_ensures;

    assert(order.to_multiset().contains(m));
    assert(order.contains(m));
    assert(order.len() > 0);
    let st0 = chunk_move_step(g, e, order[0], cw, ch, ox, oy);
    let rest = order.drop_first();
    assert(rest =~= order.remove(0));
    vstd::seq_lib::to_multiset_remove(order, 0);
    if order[0] == m {
        assert(rest.to_multiset().count(m) == 0);
        assert forall|i: int|
            0 <= i < rest.len() implies target_x_spec(#[trigger] rest[i]) == rest[i].x
            && target_y_spec(rest[i]) == rest[i].y by {
            assert(rest[i] == order[i + 1]);
            if rest[i] == m {
                assert(rest.contains(m));
                assert(rest.to_multiset().count(m) > 0);
            }
        }
        lemma_chunk_fold_noop(st0.0, st0.1, rest, cw, ch, ox, oy);
        assert(chunk_moves_fold(g, e, order, cw, ch, ox, oy) == chunk_moves_fold(
            st0.0,
            st0.1,
            rest,
            cw,
            ch,
            ox,
            oy,
        ));
    } else {
        assert(target_x_spec(order[0]) == order[0].x && target_y_spec(order[0]) == order[0].y);
        assert(st0 == (g, e));
        assert(rest.to_multiset().count(m) == 1);
        assert forall|i: int|
            0 <= i < rest.len() implies (#[trigger] rest[i] == m || (target_x_spec(rest[i])
                == rest[i].x && target_y_spec(rest[i]) == rest[i].y)) by {
            assert(rest[i] == order[i + 1]);
        }
        lemma_fold_single_mover(g, e, rest, m, cw, ch, ox, oy);
        assert(chunk_moves_fold(g, e, order, cw, ch, ox, oy) == chunk_moves_fold(
            st0.0,
            st0.1,
            rest,
            cw,
            ch,
            ox,
            oy,
        ));
    }
}

/// What one chunk update may produce: the output grid and edge list are
/// the move fold of some key-sorted arrangement of the chunk's cells
/// after a physics step under some admissible jitter draws.
pub open spec fn chunk_updated(
    g0: Seq<Seq<Pixel>>,
    gout: Seq<Seq<Pixel>>,
    eout: Seq<Pixel>,
    cw: int,
    ch: int,
    ox: int,
    oy: int,
    gravity: int,
    friction: int,
) -> bool {
    exists|stepped: Seq<Seq<Pixel>>, order: Seq<Pixel>|
        {
            &&& #[trigger] chunk_moves_fold(stepped, Seq::empty(), order, cw, ch, ox, oy) == (
            gout,
            eout,
            )
            &&& stepped.len() == ch
            &&& forall|y: int| 0 <= y < ch ==> (#[trigger] stepped[y]).len() == cw
            &&& forall|y: int, x: int|
                0 <= y < ch && 0 <= x < cw ==> stepped_cell(
                    g0[y][x],
                    #[trigger] stepped[y][x],
                    gravity,
                    friction,
                )
            &&& order.to_multiset() == grid_cells(stepped).to_multiset()
            &&& sorted_by_key(order)
        }
}

/// A chunk of still material around a single jitter-free mover resolves
/// deterministically: the physics step damps exactly the mover's velocity,
/// and the whole pass is that one candidate's move — kept in place,
/// deferred as the only edge case, or put through the displacement rule,
/// by where its damped velocity points.  The displacement scenarios
/// (denser displaces lighter below it, same kind never swaps, denser-or-
/// equal is never displaced) follow by unfolding the one step.
pub proof fn lemma_lone_mover_resolves(
    g0: Seq<Seq<Pixel>>,
    gout: Seq<Seq<Pixel>>,
    eout: Seq<Pixel>,
    cw: int,
    ch: int,
    ox: int,
    oy: int,
    gravity: int,
    friction: int,
    mx: int,
    my: int,
)
    requires
        grid_wf(g0, cw, ch),
        1 <= cw,
        1 <= ch,
        0 <= mx < cw,
        0 <= my < ch,
        chunk_updated(g0, gout, eout, cw, ch, ox, oy, gravity, friction),
        forall|y: int, x: int|
            0 <= y < ch && 0 <= x < cw && !(x == mx && y == my) ==> still_cell(
                #[trigger] g0[y][x],
                gravity,
            ),
        g0[my][mx].min_force >= 500 || gravity == 0,
        scale_spec(g0[my][mx].gravity_multiplier as int, gravity) == 0,
    ensures
        ({
            let m1 = integrate_spec(g0[my][mx], gravity, friction, 0, 0);
            let stepped = grid_set(g0, mx, my, m1);
            (gout, eout) == chunk_move_step(stepped, Seq::<Pixel>::empty(), m1, cw, ch, ox, oy)
        }),
{
    broadcast use vstd::seq_lib::group_to_multiset_ensures;

    let m0 = g0[my][mx];
    let m1 = integrate_spec(m0, gravity, friction, 0, 0);
    let st = grid_set(g0, mx, my, m1);
    let (stepped, order) = choose|stepped: Seq<Seq<Pixel>>, order: Seq<Pixel>|
        {
            &&& #[trigger] chunk_moves_fold(stepped, Seq::empty(), order, cw, ch, ox, oy) == (
            gout,
            eout,
            )
            &&& stepped.len() == ch
            &&& forall|y: int| 0 <= y < ch ==> (#[trigger] stepped[y]).len() == cw
            &&& forall|y: int, x: int|
                0 <= y < ch && 0 <= x < cw ==> stepped_cell(
                    g0[y][x],
                    #[trigger] stepped[y][x],
                    gravity,
                    friction,
                )
            &&& order.to_multiset() == grid_cells(stepped).to_multiset()
            &&& sorted_by_key(order)
        };

    assert forall|yy: int, xx: int| 0 <= yy < ch && 0 <= xx < cw implies #[trigger] stepped[yy][xx]
        == st[yy][xx] by {
        assert(stepped_cell(g0[yy][xx], stepped[yy][xx], gravity, friction));
        let (dvx, dvy) = choose|dvx: int, dvy: int|
            #[trigger] jitter_ok(g0[yy][xx], gravity, dvx, dvy) && stepped[yy][xx]
                == integrate_spec(g0[yy][xx], gravity, friction, dvx, dvy);
        if xx == mx && yy == my {
            assert(dvx == 0 && dvy == 0);
            assert(st[my][mx] == m1);
        } else {
            lemma_still_cell_rests(g0[yy][xx], gravity, friction);
            assert(stepped[yy][xx] == g0[yy][xx]);
            assert(st[yy][xx] == g0[yy][xx]);
        }
    }
    assert forall|yy: int| 0 <= yy < ch implies #[trigger] stepped[yy] =~= st[yy] by {
        assert(st[yy].len() == cw);
    }
    assert(stepped =~= st);

    assert(m1.x == mx && m1.y == my);
    assert forall|y: int, x: int|
        0 <= y < st.len() && 0 <= x < st[y].len() && !(x == mx && y == my) implies (
    #[trigger] st[y][x]) != m1 by {
        assert(st[y][x] == g0[y][x]);
        assert(g0[y][x].x == x && g0[y][x].y == y);
    }
    lemma_grid_cells_count_unique(st, m1, mx, my);
    assert(order.to_multiset().count(m1) == 1);

    assert forall|i: int|
        0 <= i < order.len() implies (#[trigger] order[i] == m1 || (target_x_spec(order[i])
            == order[i].x && target_y_spec(order[i]) == order[i].y)) by {
        assert(order.contains(order[i]));
        assert(grid_cells(st).to_multiset().count(order[i]) > 0);
        assert(grid_cells(st).contains(order[i]));
        lemma_grid_cells_member(st, order[i]);
        let (yy, xx) = choose|yy: int, xx: int|
            0 <= yy < st.len() && 0 <= xx < st[yy].len() && (#[trigger] st[yy][xx]) == order[i];
        if !(xx == mx && yy == my) {
            assert(st[yy][xx] == g0[yy][xx]);
            lemma_still_cell_rests(g0[yy][xx], gravity, friction);
        }
    }
    lemma_fold_single_mover(st, Seq::empty(), order, m1, cw, ch, ox, oy);
}

/// One tick's update of one chunk snapshot, in chunk-local coordinates:
/// the physics step runs on every cell in place, the candidate moves are
/// applied in ascending key order under the displacement rule, and moves
/// whose target leaves the chunk come back as edge cases in absolute
/// coordinates (the chunk's origin is `(ox, oy)`), with their computed
/// velocities, for the global pass.
///
/// No local work changes the multiset of material kinds in the chunk.
pub fn subdate(
    sgrid: Vec<Vec<Pixel>>,
    id: usize,
    ox: usize,
    oy: usize,
    cw: usize,
    ch: usize,
    gravity: i64,
    friction: i64,
    rng: &mut SimRng,
) -> (r: (Vec<Vec<Pixel>>, Vec<Pixel>, usize))
    requires
        grid_wf(gview(sgrid), cw as int, ch as int),
        1 <= cw,
        1 <= ch,
        ox + cw <= MAX_DIM,
        oy + ch <= MAX_DIM,
        0 <= gravity <= GRAVITY_MAX,
        0 <= friction <= FRICTION_MAX,
    ensures
        grid_wf(gview(r.0), cw as int, ch as int),
        grid_kinds(gview(r.0)) == grid_kinds(gview(sgrid)),
        r.2 == id,
        forall|k: int|
            0 <= k < r.1@.len() ==> {
                let e = #[trigger] r.1@[k];
                &&& ox <= e.x < ox + cw
                &&& oy <= e.y < oy + ch
                &&& params_ok(e)
                &&& vel_ok(e)
            },
        chunk_updated(
            gview(sgrid),
            gview(r.0),
            r.1@,
            cw as int,
            ch as int,
            ox as int,
            oy as int,
            gravity as int,
            friction as int,
        ),
{
    let ghost g0 = gview(sgrid);
    let mut grid = sgrid;

    // Physics: integrate every cell's velocity in place (kinds untouched).
    let mut y: usize = 0;
    while y < ch
        invariant
            y <= ch,
            1 <= cw,
            1 <= ch,
            ox + cw <= MAX_DIM,
            oy + ch <= MAX_DIM,
            0 <= gravity <= GRAVITY_MAX,
            0 <= friction <= FRICTION_MAX,
            grid_wf(gview(grid), cw as int, ch as int),
            grid_kinds(gview(grid)) == grid_kinds(g0),
            gview(grid).len() == ch,
            forall|yy: int, xx: int|
                0 <= yy < y && 0 <= xx < cw ==> stepped_cell(
                    g0[yy][xx],
                    #[trigger] gview(grid)[yy][xx],
                    gravity as int,
                    friction as int,
                ),
            forall|yy: int, xx: int|
                y <= yy < ch && 0 <= xx < cw ==> #[trigger] gview(grid)[yy][xx] == g0[yy][xx],
        decreases ch - y,
    {
        let mut x: usize = 0;
        while x < cw
            invariant
                x <= cw,
                y < ch,
                1 <= cw,
                1 <= ch,
                ox + cw <= MAX_DIM,
                oy + ch <= MAX_DIM,
                0 <= gravity <= GRAVITY_MAX,
                0 <= friction <= FRICTION_MAX,
                grid_wf(gview(grid), cw as int, ch as int),
                grid_kinds(gview(grid)) == grid_kinds(g0),
                gview(grid).len() == ch,
                forall|yy: int, xx: int|
                    0 <= yy < y && 0 <= xx < cw ==> stepped_cell(
                        g0[yy][xx],
                        #[trigger] gview(grid)[yy][xx],
                        gravity as int,
                        friction as int,
                    ),
                forall|xx: int|
                    0 <= xx < x ==> stepped_cell(
                        g0[y as int][xx],
                        #[trigger] gview(grid)[y as int][xx],
                        gravity as int,
                        friction as int,
                    ),
                forall|yy: int, xx: int|
                    y < yy < ch && 0 <= xx < cw ==> #[trigger] gview(grid)[yy][xx] == g0[yy][xx],
                forall|xx: int|
                    x <= xx < cw ==> #[trigger] gview(grid)[y as int][xx] == g0[y as int][xx],
            decreases cw - x,
        {
            proof {
                lemma_grid_lens(&grid, cw as int, ch as int);
            }
            let p = grid[y][x];
            proof {
                assert(p == gview(grid)[y as int][x as int]);
            }
            let p2 = step_pixel(&p, gravity, friction, rng);
            set_cell(&mut grid, x, y, p2, cw, ch);
            proof {
                assert(stepped_cell(g0[y as int][x as int], p2, gravity as int, friction as int));
            }
            x = x + 1;
        }
        y = y + 1;
    }

    // Collect every cell as a move candidate, row-major.
    let ghost stepped = gview(grid);
    let mut list: Vec<Pixel> = Vec::new();
    let mut y2: usize = 0;
    while y2 < ch
        invariant
            y2 <= ch,
            grid_wf(gview(grid), cw as int, ch as int),
            gview(grid) == stepped,
            stepped.len() == ch,
            list@ == grid_cells(stepped.take(y2 as int)),
            forall|k: int|
                0 <= k < list@.len() ==> {
                    let e = #[trigger] list@[k];
                    &&& e.x < cw
                    &&& e.y < ch
                    &&& params_ok(e)
                    &&& vel_ok(e)
                },
        decreases ch - y2,
    {
        let mut x2: usize = 0;
        proof {
            assert(grid_cells(stepped.take(y2 as int)) + stepped[y2 as int].take(0) =~= list@);
        }
        while x2 < cw
            invariant
                x2 <= cw,
                y2 < ch,
                grid_wf(gview(grid), cw as int, ch as int),
                gview(grid) == stepped,
                stepped.len() == ch,
                stepped[y2 as int].len() == cw,
                list@ == grid_cells(stepped.take(y2 as int)) + stepped[y2 as int].take(x2 as int),
                forall|k: int|
                    0 <= k < list@.len() ==> {
                        let e = #[trigger] list@[k];
                        &&& e.x < cw
                        &&& e.y < ch
                        &&& params_ok(e)
                        &&& vel_ok(e)
                    },
            decreases cw - x2,
        {
            proof {
                lemma_grid_lens(&grid, cw as int, ch as int);
            }
            let p = grid[y2][x2];
            proof {
                assert(p == gview(grid)[y2 as int][x2 as int]);
                assert(list@.push(p) =~= grid_cells(stepped.take(y2 as int))
                    + stepped[y2 as int].take(x2 + 1));
            }
            list.push(p);
            x2 = x2 + 1;
        }
        proof {
            lemma_grid_cells_snoc(stepped, y2 as int);
            assert(stepped[y2 as int].take(cw as int) =~= stepped[y2 as int]);
        }
        y2 = y2 + 1;
    }
    proof {
        assert(stepped.take(ch as int) =~= stepped);
        assert(list@ == grid_cells(stepped));
    }

    // Order the candidates by move key.
    let ghost pre = list@;
    sort_pixels(&mut list);
    proof {
        assert forall|k: int|
            0 <= k < list@.len() implies (#[trigger] list@[k]).x < cw && list@[k].y < ch by {
            let e = list@[k];
            assert(list@.contains(e));
            assert(pre.to_multiset().count(e) > 0);
            assert(pre.contains(e));
            let idx = choose|idx: int| 0 <= idx < pre.len() && pre[idx] == e;
            assert(pre[idx].x < cw && pre[idx].y < ch);
        }
    }

    // Apply the moves in key order; defer boundary-crossing moves.
    let mut edge: Vec<Pixel> = Vec::new();
    let n = list.len();
    let mut k: usize = 0;
    while k < n
        invariant
            k <= n,
            n == list@.len(),
            1 <= cw,
            1 <= ch,
            ox + cw <= MAX_DIM,
            oy + ch <= MAX_DIM,
            grid_wf(gview(grid), cw as int, ch as int),
            grid_kinds(gview(grid)) == grid_kinds(g0),
            sorted_by_key(list@),
            list@.to_multiset() == grid_cells(stepped).to_multiset(),
            (gview(grid), edge@) == chunk_moves_fold(
                stepped,
                Seq::empty(),
                list@.take(k as int),
                cw as int,
                ch as int,
                ox as int,
                oy as int,
            ),
            forall|a: int|
                0 <= a < n ==> {
                    let e = #[trigger] list@[a];
                    &&& e.x < cw
                    &&& e.y < ch
                    &&& params_ok(e)
                    &&& vel_ok(e)
                },
            forall|a: int|
                0 <= a < edge@.len() ==> {
                    let e = #[trigger] edge@[a];
                    &&& ox <= e.x < ox + cw
                    &&& oy <= e.y < oy + ch
                    &&& params_ok(e)
                    &&& vel_ok(e)
                },
        decreases n - k,
    {
        let pix = list[k];
        proof {
            lemma_chunk_fold_snoc(
                stepped,
                Seq::empty(),
                list@.take(k as int),
                pix,
                cw as int,
                ch as int,
                ox as int,
                oy as int,
            );
            assert(list@.take(k + 1) =~= list@.take(k as int).push(pix));
        }
        let t = target_of(&pix);
        if !(t.0 == pix.x as i64 && t.1 == pix.y as i64) {
            if !check_coord(t.0, t.1, cw, ch) {
                let mut e = pix;
                e.x = pix.x + ox;
                e.y = pix.y + oy;
                proof {
                    assert(e == (Pixel {
                        x: (pix.x + ox) as usize,
                        y: (pix.y + oy) as usize,
                        ..pix
                    }));
                }
                edge.push(e);
            } else {
                apply_move(&mut grid, pix.x, pix.y, t.0 as usize, t.1 as usize, cw, ch);
            }
        }
        k = k + 1;
    }

    proof {
        assert(list@.take(n as int) =~= list@);
        assert({
            &&& chunk_moves_fold(
                stepped,
                Seq::empty(),
                list@,
                cw as int,
                ch as int,
                ox as int,
                oy as int,
            ) == (gview(grid), edge@)
            &&& stepped.len() == ch
            &&& forall|yy: int| 0 <= yy < ch ==> (#[trigger] stepped[yy]).len() == cw
            &&& forall|yy: int, xx: int|
                0 <= yy < ch && 0 <= xx < cw ==> stepped_cell(
                    g0[yy][xx],
                    #[trigger] stepped[yy][xx],
                    gravity as int,
                    friction as int,
                )
            &&& list@.to_multiset() == grid_cells(stepped).to_multiset()
            &&& sorted_by_key(list@)
        });
    }
    (grid, edge, id)
}

} // verus!
