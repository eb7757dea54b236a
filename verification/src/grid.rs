//! The flat working grid: snapshotting, piece collision and stamping.
//!
//! A grid is a row-major `Vec<u8>` of `gw * gh` cells; `0` is empty and
//! `c + 1` is a grain of color `c`.

use vstd::prelude::*;

use crate::state::{FrozenGrain, Piece, GRAIN_SCALE, MAX_CELLS, MAX_COORD, offsets_wf, piece_wf};

verus! {

/// A well-formed working grid: right length, colors in `0..=6`.
pub open spec fn grid_wf(g: Seq<u8>, gw: int, gh: int) -> bool {
    &&& g.len() == gw * gh
    &&& forall|i: int| 0 <= i < g.len() ==> #[trigger] g[i] <= 6
}

/// The cell of `g` at column `x`, row `y`.
pub open spec fn cell_at(g: Seq<u8>, gw: int, x: int, y: int) -> u8 {
    g[y * gw + x]
}

pub proof fn lemma_cell_index_bound(gw: int, gh: int, x: int, y: int)
    requires
        0 <= x < gw,
        0 <= y < gh,
    ensures
        0 <= y * gw + x < gw * gh,
{
    assert(0 <= y * gw + x < gw * gh) by (nonlinear_arith)
        requires
            0 <= x < gw,
            0 <= y < gh,
    ;
}

pub proof fn lemma_cell_index_injective(gw: int, x1: int, y1: int, x2: int, y2: int)
    requires
        0 <= x1 < gw,
        0 <= x2 < gw,
        y1 * gw + x1 == y2 * gw + x2,
    ensures
        x1 == x2,
        y1 == y2,
{
    assert(x1 == x2 && y1 == y2) by (nonlinear_arith)
        requires
            0 <= x1 < gw,
            0 <= x2 < gw,
            y1 * gw + x1 == y2 * gw + x2,
    ;
}

pub proof fn lemma_dims_bounded(gw: int, gh: int)
    requires
        1 <= gw,
        1 <= gh,
        gw * gh <= MAX_CELLS,
    ensures
        gw <= MAX_CELLS,
        gh <= MAX_CELLS,
{
    assert(gw <= gw * gh && gh <= gw * gh) by (nonlinear_arith)
        requires
            1 <= gw,
            1 <= gh,
    ;
}

/// Row-major index of the cell at column `x`, row `y`.
pub fn cell_index(gw: usize, gh: usize, x: usize, y: usize) -> (i: usize)
    requires
        x < gw,
        y < gh,
        gw * gh <= MAX_CELLS,
    ensures
        i == y * gw + x,
        i < gw * gh,
{
    proof {
        lemma_cell_index_bound(gw as int, gh as int, x as int, y as int);
    }
    y * gw + x
}

/// How many cells of `g` hold exactly the value `v`.
pub open spec fn count_val(g: Seq<u8>, v: u8) -> int
    decreases g.len(),
{
    if g.len() == 0 {
        0
    } else {
        count_val(g.drop_last(), v) + if g.last() == v {
            1int
        } else {
            0int
        }
    }
}

pub proof fn lemma_count_val_update(g: Seq<u8>, i: int, v_new: u8, v: u8)
    requires
        0 <= i < g.len(),
    ensures
        count_val(g.update(i, v_new), v) == count_val(g, v) - (if g[i] == v {
            1int
        } else {
            0int
        }) + (if v_new == v {
            1int
        } else {
            0int
        }),
    decreases g.len(),
{
    let gu = g.update(i, v_new);
    if i == g.len() - 1 {
        assert(gu.drop_last() =~= g.drop_last());
    } else {
        assert(gu.drop_last() =~= g.drop_last().update(i, v_new));
        lemma_count_val_update(g.drop_last(), i, v_new, v);
    }
}

// ---------------------------------------------------------------------------
// Snapshot
// ---------------------------------------------------------------------------

/// The settled board with the frozen grains written over it, in order;
/// out-of-range frozen grains are skipped.
pub open spec fn overlay(base: Seq<u8>, frozen: Seq<FrozenGrain>, gw: int, gh: int) -> Seq<u8>
    decreases frozen.len(),
{
    if frozen.len() == 0 {
        base
    } else {
        let prev = overlay(base, frozen.drop_last(), gw, gh);
        let fg = frozen.last();
        if fg.x < gw && fg.y < gh {
            prev.update(fg.y * gw + fg.x, (fg.color_index + 1) as u8)
        } else {
            prev
        }
    }
}

/// Flatten the settled board plus the frozen grains into one working grid.
/// Frozen grains overwrite whatever was at their coordinates; grains out
/// of range are silently dropped.
#[verifier::loop_isolation(false)]
pub fn snapshot_grid(settled: &Vec<u8>, frozen: &Vec<FrozenGrain>, gw: usize, gh: usize) -> (grid:
    Vec<u8>)
    requires
        settled@.len() == gw * gh,
        gw * gh <= MAX_CELLS,
        forall|i: int| 0 <= i < settled@.len() ==> #[trigger] settled@[i] <= 6,
        forall|i: int| 0 <= i < frozen@.len() ==> (#[trigger] frozen@[i]).color_index < 6,
    ensures
        grid@ == overlay(settled@, frozen@, gw as int, gh as int),
        grid_wf(grid@, gw as int, gh as int),
{
    let n: usize = settled.len();
    let mut grid: Vec<u8> = Vec::new();
    let mut i: usize = 0;
    while i < n
        invariant
            i <= n,
            n == settled@.len(),
            grid@ =~= settled@.take(i as int),
        decreases n - i,
    {
        grid.push(settled[i]);
        proof {
            assert(grid@ =~= settled@.take(i + 1));
        }
        i = i + 1;
    }
    assert(grid@ =~= settled@);
    let m: usize = frozen.len();
    let mut j: usize = 0;
    while j < m
        invariant
            j <= m,
            m == frozen@.len(),
            gw * gh <= MAX_CELLS,
            settled@.len() == gw * gh,
            forall|i2: int| 0 <= i2 < settled@.len() ==> #[trigger] settled@[i2] <= 6,
            forall|i2: int| 0 <= i2 < frozen@.len() ==> (#[trigger] frozen@[i2]).color_index < 6,
            grid@ == overlay(settled@, frozen@.take(j as int), gw as int, gh as int),
            grid_wf(grid@, gw as int, gh as int),
        decreases m - j,
    {
        let ghost pre = grid@;
        let fg_x = frozen[j].x;
        let fg_y = frozen[j].y;
        let fg_c = frozen[j].color_index;
        if fg_x < gw && fg_y < gh {
            let idx = cell_index(gw, gh, fg_x, fg_y);
            grid.set(idx, fg_c + 1);
        }
        proof {
            let fz = frozen@.take(j + 1);
            assert(fz.drop_last() =~= frozen@.take(j as int));
            assert(fz.last() == frozen@[j as int]);
            assert(grid@ == overlay(settled@, fz, gw as int, gh as int));
        }
        j = j + 1;
    }
    assert(frozen@.take(m as int) =~= frozen@);
    grid
}

// ---------------------------------------------------------------------------
// Collision
// ---------------------------------------------------------------------------

/// A single grain cell is admissible for a piece: horizontally inside the
/// board, not below the floor, and empty unless it is still above the top.
pub open spec fn cell_free(g: Seq<u8>, gw: int, gh: int, cx: int, cy: int) -> bool {
    &&& 0 <= cx < gw
    &&& cy < gh
    &&& (cy < 0 || cell_at(g, gw, cx, cy) == 0)
}

/// Every grain of one block (origin `(bx, by)`) is admissible.
pub open spec fn block_fits(g: Seq<u8>, gw: int, gh: int, bx: int, by: int) -> bool {
    forall|dx: int, dy: int|
        0 <= dx < GRAIN_SCALE && 0 <= dy < GRAIN_SCALE ==> #[trigger] cell_free(
            g,
            gw,
            gh,
            bx + dx,
            by + dy,
        )
}

/// The piece shape `offs`, posed at `(gx, gy)`, collides with nothing on
/// the grid and stays inside the side walls and above the floor.
pub open spec fn fits_pose(g: Seq<u8>, gw: int, gh: int, offs: Seq<(i32, i32)>, gx: int, gy: int) -> bool {
    forall|k: int|
        0 <= k < offs.len() ==> block_fits(g, gw, gh, gx + (#[trigger] offs[k]).0, gy + offs[k].1)
}

/// A named instantiation of `block_fits` at one grain offset.
pub proof fn lemma_block_fits_cell(g: Seq<u8>, gw: int, gh: int, bx: int, by: int, dx: int, dy: int)
    requires
        block_fits(g, gw, gh, bx, by),
        0 <= dx < GRAIN_SCALE,
        0 <= dy < GRAIN_SCALE,
    ensures
        cell_free(g, gw, gh, bx + dx, by + dy),
{
    assert(cell_free(g, gw, gh, bx + dx, by + dy));
}

/// Collision check of a shape at an explicit pose against the flat grid.
#[verifier::loop_isolation(false)]
pub fn fits_at(grid: &Vec<u8>, gw: usize, gh: usize, offs: &Vec<(i32, i32)>, gx: i32, gy: i32) -> (r:
    bool)
    requires
        grid@.len() == gw * gh,
        gw * gh <= MAX_CELLS,
        1 <= gw,
        1 <= gh,
        offsets_wf(offs@),
        -2 * MAX_COORD <= gx <= 2 * MAX_COORD,
        -2 * MAX_COORD <= gy <= 2 * MAX_COORD,
    ensures
        r == fits_pose(grid@, gw as int, gh as int, offs@, gx as int, gy as int),
{
    proof {
        lemma_dims_bounded(gw as int, gh as int);
    }
    let ghost gview = grid@;
    let ghost gwi = gw as int;
    let ghost ghi = gh as int;
    let n = offs.len();
    let mut k: usize = 0;
    while k < n
        invariant
            k <= n,
            n == offs@.len(),
            grid@ == gview,
            grid@.len() == gw * gh,
            gw * gh <= MAX_CELLS,
            1 <= gw,
            gw <= MAX_CELLS,
            gh <= MAX_CELLS,
            offsets_wf(offs@),
            -2 * MAX_COORD <= gx <= 2 * MAX_COORD,
            -2 * MAX_COORD <= gy <= 2 * MAX_COORD,
            forall|k2: int|
                0 <= k2 < k ==> block_fits(gview, gwi, ghi, gx + (#[trigger] offs@[k2]).0, gy + offs@[k2].1),
        decreases n - k,
    {
        let (ox, oy) = offs[k];
        let bx: i32 = gx + ox;
        let by: i32 = gy + oy;
        let gs: i32 = GRAIN_SCALE as i32;
        let mut dy: i32 = 0;
        while dy < gs
            invariant
                0 <= dy <= gs,
                gs == GRAIN_SCALE,
                grid@ == gview,
                grid@.len() == gw * gh,
                gw * gh <= MAX_CELLS,
                1 <= gw,
                gw <= MAX_CELLS,
                gh <= MAX_CELLS,
                bx == gx + offs@[k as int].0,
                by == gy + offs@[k as int].1,
                -3 * MAX_COORD <= bx <= 3 * MAX_COORD,
                -3 * MAX_COORD <= by <= 3 * MAX_COORD,
                forall|dx2: int, dy2: int|
                    0 <= dx2 < GRAIN_SCALE && 0 <= dy2 < dy ==> #[trigger] cell_free(
                        gview,
                        gwi,
                        ghi,
                        bx + dx2,
                        by + dy2,
                    ),
            decreases gs - dy,
        {
            let mut dx: i32 = 0;
            while dx < gs
                invariant
                    0 <= dx <= gs,
                    0 <= dy < gs,
                    gs == GRAIN_SCALE,
                    grid@ == gview,
                    grid@.len() == gw * gh,
                    gw * gh <= MAX_CELLS,
                    1 <= gw,
                    gw <= MAX_CELLS,
                    gh <= MAX_CELLS,
                    -3 * MAX_COORD <= bx <= 3 * MAX_COORD,
                    -3 * MAX_COORD <= by <= 3 * MAX_COORD,
                    forall|dx2: int|
                        0 <= dx2 < dx ==> #[trigger] cell_free(gview, gwi, ghi, bx + dx2, by + dy),
                decreases gs - dx,
            {
                let cx: i32 = bx + dx;
                let cy: i32 = by + dy;
                if cx < 0 || cx >= gw as i32 || cy >= gh as i32 {
                    proof {
                        assert(!cell_free(gview, gwi, ghi, cx as int, cy as int));
                        assert(!block_fits(gview, gwi, ghi, bx as int, by as int));
                    }
                    return false;
                }
                if cy >= 0 {
                    let idx = cell_index(gw, gh, cx as usize, cy as usize);
                    if grid[idx] != 0 {
                        proof {
                            assert(!cell_free(gview, gwi, ghi, cx as int, cy as int));
                            assert(!block_fits(gview, gwi, ghi, bx as int, by as int));
                        }
                        return false;
                    }
                }
                proof {
                    assert(cell_free(gview, gwi, ghi, cx as int, cy as int));
                }
                dx = dx + 1;
            }
            dy = dy + 1;
        }
        proof {
            assert(block_fits(gview, gwi, ghi, bx as int, by as int));
        }
        k = k + 1;
    }
    true
}

/// Check whether a piece, at its own pose, fits on the flat grid.
pub fn can_place_on_grid(grid: &Vec<u8>, gw: usize, gh: usize, piece: &Piece) -> (r: bool)
    requires
        grid@.len() == gw * gh,
        gw * gh <= MAX_CELLS,
        1 <= gw,
        1 <= gh,
        piece_wf(*piece),
    ensures
        r == fits_pose(
            grid@,
            gw as int,
            gh as int,
            piece.shape@[piece.rotation as int]@,
            piece.gx as int,
            piece.gy as int,
        ),
{
    let offs = &piece.shape[piece.rotation as usize];
    fits_at(grid, gw, gh, offs, piece.gx, piece.gy)
}

// ---------------------------------------------------------------------------
// Stamping
// ---------------------------------------------------------------------------

/// `(x, y)` lies inside one of the first `kk` blocks of the posed shape.
pub open spec fn covered_upto(offs: Seq<(i32, i32)>, gx: int, gy: int, kk: int, x: int, y: int) -> bool {
    exists|k: int|
        0 <= k < kk && gx + (#[trigger] offs[k]).0 <= x < gx + offs[k].0 + GRAIN_SCALE && gy
            + offs[k].1 <= y < gy + offs[k].1 + GRAIN_SCALE
}

/// `(x, y)` lies inside some block of the posed shape.
pub open spec fn covered(offs: Seq<(i32, i32)>, gx: int, gy: int, x: int, y: int) -> bool {
    covered_upto(offs, gx, gy, offs.len() as int, x, y)
}

/// The part of one block already scanned: rows before `dy` whole, row `dy`
/// up to column `dx`.
pub open spec fn block_part(bx: int, by: int, dy: int, dx: int, x: int, y: int) -> bool {
    (bx <= x < bx + GRAIN_SCALE && by <= y < by + dy) || (y == by + dy && bx <= x < bx + dx)
}

/// Write `color` into every in-bounds grain cell of the posed shape.
#[verifier::loop_isolation(false)]
pub fn stamp_at(grid: &mut Vec<u8>, gw: usize, gh: usize, offs: &Vec<(i32, i32)>, gx: i32, gy: i32, color: u8)
    requires
        old(grid)@.len() == gw * gh,
        gw * gh <= MAX_CELLS,
        1 <= gw,
        1 <= gh,
        offsets_wf(offs@),
        -2 * MAX_COORD <= gx <= 2 * MAX_COORD,
        -2 * MAX_COORD <= gy <= 2 * MAX_COORD,
    ensures
        final(grid)@.len() == old(grid)@.len(),
        forall|x: int, y: int|
            0 <= x < gw && 0 <= y < gh ==> #[trigger] cell_at(final(grid)@, gw as int, x, y) == (
            if covered(offs@, gx as int, gy as int, x, y) {
                color
            } else {
                cell_at(old(grid)@, gw as int, x, y)
            }),
{
    proof {
        lemma_dims_bounded(gw as int, gh as int);
    }
    let ghost g0 = old(grid)@;
    let ghost gwi = gw as int;
    let ghost ghi = gh as int;
    let n = offs.len();
    let mut k: usize = 0;
    while k < n
        invariant
            k <= n,
            n == offs@.len(),
            grid@.len() == gw * gh,
            g0.len() == gw * gh,
            gw * gh <= MAX_CELLS,
            1 <= gw,
            gw <= MAX_CELLS,
            gh <= MAX_CELLS,
            offsets_wf(offs@),
            -2 * MAX_COORD <= gx <= 2 * MAX_COORD,
            -2 * MAX_COORD <= gy <= 2 * MAX_COORD,
            forall|x: int, y: int|
                0 <= x < gwi && 0 <= y < ghi ==> #[trigger] cell_at(grid@, gwi, x, y) == (
                if covered_upto(offs@, gx as int, gy as int, k as int, x, y) {
                    color
                } else {
                    cell_at(g0, gwi, x, y)
                }),
        decreases n - k,
    {
        let (ox, oy) = offs[k];
        let bx: i32 = gx + ox;
        let by: i32 = gy + oy;
        let gs: i32 = GRAIN_SCALE as i32;
        let ghost bxi = bx as int;
        let ghost byi = by as int;
        let ghost gk = grid@;
        let mut dy: i32 = 0;
        while dy < gs
            invariant
                0 <= dy <= gs,
                gs == GRAIN_SCALE,
                grid@.len() == gw * gh,
                gw * gh <= MAX_CELLS,
                1 <= gw,
                gw <= MAX_CELLS,
                gh <= MAX_CELLS,
                bxi == bx as int,
                byi == by as int,
                -3 * MAX_COORD <= bx <= 3 * MAX_COORD,
                -3 * MAX_COORD <= by <= 3 * MAX_COORD,
                forall|x: int, y: int|
                    0 <= x < gwi && 0 <= y < ghi ==> #[trigger] cell_at(grid@, gwi, x, y) == (
                    if block_part(bxi, byi, dy as int, 0, x, y) {
                        color
                    } else {
                        cell_at(gk, gwi, x, y)
                    }),
            decreases gs - dy,
        {
            let mut dx: i32 = 0;
            while dx < gs
                invariant
                    0 <= dx <= gs,
                    0 <= dy < gs,
                    gs == GRAIN_SCALE,
                    grid@.len() == gw * gh,
                    gw * gh <= MAX_CELLS,
                    1 <= gw,
                    gw <= MAX_CELLS,
                    gh <= MAX_CELLS,
                    bxi == bx as int,
                    byi == by as int,
                    -3 * MAX_COORD <= bx <= 3 * MAX_COORD,
                    -3 * MAX_COORD <= by <= 3 * MAX_COORD,
                    forall|x: int, y: int|
                        0 <= x < gwi && 0 <= y < ghi ==> #[trigger] cell_at(grid@, gwi, x, y) == (
                        if block_part(bxi, byi, dy as int, dx as int, x, y) {
                            color
                        } else {
                            cell_at(gk, gwi, x, y)
                        }),
                decreases gs - dx,
            {
                let cx: i32 = bx + dx;
                let cy: i32 = by + dy;
                if 0 <= cx && cx < gw as i32 && 0 <= cy && cy < gh as i32 {
                    let idx = cell_index(gw, gh, cx as usize, cy as usize);
                    let ghost pre = grid@;
                    grid.set(idx, color);
                    proof {
                        assert forall|x: int, y: int| 0 <= x < gwi && 0 <= y < ghi implies #[trigger] cell_at(
                            grid@,
                            gwi,
                            x,
                            y,
                        ) == (if block_part(bxi, byi, dy as int, dx as int + 1, x, y) {
                            color
                        } else {
                            cell_at(gk, gwi, x, y)
                        }) by {
                            lemma_cell_index_bound(gwi, ghi, x, y);
                            assert(cell_at(pre, gwi, x, y) == (if block_part(
                                bxi,
                                byi,
                                dy as int,
                                dx as int,
                                x,
                                y,
                            ) {
                                color
                            } else {
                                cell_at(gk, gwi, x, y)
                            }));
                            if y * gwi + x == idx {
                                lemma_cell_index_injective(gwi, x, y, cx as int, cy as int);
                            }
                        }
                    }
                } else {
                    proof {
                        assert forall|x: int, y: int| 0 <= x < gwi && 0 <= y < ghi implies #[trigger] cell_at(
                            grid@,
                            gwi,
                            x,
                            y,
                        ) == (if block_part(bxi, byi, dy as int, dx as int + 1, x, y) {
                            color
                        } else {
                            cell_at(gk, gwi, x, y)
                        }) by {
                            assert(!(x == cx as int && y == cy as int));
                        }
                    }
                }
                dx = dx + 1;
            }
            dy = dy + 1;
        }
        proof {
            assert forall|x: int, y: int| 0 <= x < gwi && 0 <= y < ghi implies #[trigger] cell_at(
                grid@,
                gwi,
                x,
                y,
            ) == (if covered_upto(offs@, gx as int, gy as int, k as int + 1, x, y) {
                color
            } else {
                cell_at(g0, gwi, x, y)
            }) by {
                if covered_upto(offs@, gx as int, gy as int, k as int + 1, x, y) {
                    let kw = choose|k2: int|
                        0 <= k2 < k as int + 1 && gx + (#[trigger] offs@[k2]).0 <= x < gx + offs@[k2].0
                            + GRAIN_SCALE && gy + offs@[k2].1 <= y < gy + offs@[k2].1 + GRAIN_SCALE;
                    if kw < k as int {
                        assert(covered_upto(offs@, gx as int, gy as int, k as int, x, y));
                    } else {
                        assert(block_part(bxi, byi, GRAIN_SCALE as int, 0, x, y));
                    }
                } else {
                    assert(!covered_upto(offs@, gx as int, gy as int, k as int, x, y));
                    assert(!block_part(bxi, byi, GRAIN_SCALE as int, 0, x, y));
                }
            }
        }
        k = k + 1;
    }
    proof {
        assert forall|x: int, y: int| 0 <= x < gwi && 0 <= y < ghi implies #[trigger] cell_at(
            grid@,
            gwi,
            x,
            y,
        ) == (if covered(offs@, gx as int, gy as int, x, y) {
            color
        } else {
            cell_at(g0, gwi, x, y)
        }) by {
        }
    }
}

/// Stamp every grain cell of a piece, at its own pose, with `color`.
pub fn stamp_piece(grid: &mut Vec<u8>, gw: usize, gh: usize, piece: &Piece, color: u8)
    requires
        old(grid)@.len() == gw * gh,
        gw * gh <= MAX_CELLS,
        1 <= gw,
        1 <= gh,
        piece_wf(*piece),
    ensures
        final(grid)@.len() == old(grid)@.len(),
        forall|x: int, y: int|
            0 <= x < gw && 0 <= y < gh ==> #[trigger] cell_at(final(grid)@, gw as int, x, y) == (
            if covered(
                piece.shape@[piece.rotation as int]@,
                piece.gx as int,
                piece.gy as int,
                x,
                y,
            ) {
                color
            } else {
                cell_at(old(grid)@, gw as int, x, y)
            }),
{
    let offs = &piece.shape[piece.rotation as usize];
    stamp_at(grid, gw, gh, offs, piece.gx, piece.gy, color);
}

} // verus!
