//! The settle simulator: relax a grid with freshly stamped grains toward a
//! gravity-stable configuration with repeated bottom-up passes.

use vstd::prelude::*;

use crate::grid::{
    cell_at, cell_index, count_val, grid_wf, lemma_cell_index_bound, lemma_count_val_update,
    lemma_dims_bounded,
};
use crate::state::MAX_CELLS;

verus! {

/// Cap on settle passes: bounds worst-case cost, does not guarantee full
/// settlement of adversarial configurations.
pub const SETTLE_PASSES: usize = 80;

/// The grain at `(x, y)` (above the bottom row) has nowhere to go: the cell
/// below is occupied and each diagonal is occupied or blocked by a wall.
pub open spec fn settled_at(g: Seq<u8>, gw: int, gh: int, x: int, y: int) -> bool {
    cell_at(g, gw, x, y) != 0 ==> {
        &&& cell_at(g, gw, x, y + 1) != 0
        &&& (x == 0 || cell_at(g, gw, x - 1, y + 1) != 0)
        &&& (x + 1 == gw || cell_at(g, gw, x + 1, y + 1) != 0)
    }
}

/// No grain above the bottom row can fall straight down or diagonally.
pub open spec fn is_settled(g: Seq<u8>, gw: int, gh: int) -> bool {
    forall|x: int, y: int|
        0 <= x < gw && 0 <= y < gh - 1 ==> #[trigger] settled_at(g, gw, gh, x, y)
}

/// Height of a grain above the bottom row; empty cells weigh nothing.
pub open spec fn cell_weight(i: int, c: u8, gw: int, gh: int) -> int {
    if c == 0 {
        0
    } else {
        gh - 1 - i / gw
    }
}

/// Total height potential of a grid; every grain move decreases it by one.
pub open spec fn pot(g: Seq<u8>, gw: int, gh: int) -> int
    decreases g.len(),
{
    if g.len() == 0 {
        0
    } else {
        pot(g.drop_last(), gw, gh) + cell_weight(g.len() - 1, g.last(), gw, gh)
    }
}

proof fn lemma_pot_update(g: Seq<u8>, i: int, v: u8, gw: int, gh: int)
    requires
        0 <= i < g.len(),
    ensures
        pot(g.update(i, v), gw, gh) == pot(g, gw, gh) - cell_weight(i, g[i], gw, gh) + cell_weight(
            i,
            v,
            gw,
            gh,
        ),
    decreases g.len(),
{
    let gu = g.update(i, v);
    if i == g.len() - 1 {
        assert(gu.drop_last() =~= g.drop_last());
    } else {
        assert(gu.drop_last() =~= g.drop_last().update(i, v));
        lemma_pot_update(g.drop_last(), i, v, gw, gh);
    }
}

/// Moving the grain at `(x, y)` into the empty cell `(x2, y + 1)` keeps
/// every color count and lowers the potential by exactly one.
proof fn lemma_move_grain(g: Seq<u8>, gw: int, gh: int, x: int, y: int, x2: int)
    requires
        g.len() == gw * gh,
        1 <= gw,
        0 <= x < gw,
        0 <= x2 < gw,
        0 <= y,
        y + 1 < gh,
        cell_at(g, gw, x, y) != 0,
        cell_at(g, gw, x2, y + 1) == 0,
    ensures
        ({
            let g2 = g.update((y + 1) * gw + x2, cell_at(g, gw, x, y)).update(y * gw + x, 0);
            &&& forall|v: u8| count_val(g2, v) == count_val(g, v)
            &&& pot(g2, gw, gh) == pot(g, gw, gh) - 1
        }),
{
    let i = y * gw + x;
    let j = (y + 1) * gw + x2;
    let c = cell_at(g, gw, x, y);
    lemma_cell_index_bound(gw, gh, x, y);
    lemma_cell_index_bound(gw, gh, x2, y + 1);
    assert((y + 1) * gw == y * gw + gw) by (nonlinear_arith);
    assert(i != j);
    let g1 = g.update(j, c);
    let g2 = g1.update(i, 0);
    assert forall|v: u8| count_val(g2, v) == count_val(g, v) by {
        lemma_count_val_update(g, j, c, v);
        lemma_count_val_update(g1, i, 0, v);
    }
    vstd::arithmetic::div_mod::lemma_fundamental_div_mod_converse(i, gw, y, x);
    vstd::arithmetic::div_mod::lemma_fundamental_div_mod_converse(j, gw, y + 1, x2);
    lemma_pot_update(g, j, c, gw, gh);
    lemma_pot_update(g1, i, 0, gw, gh);
}

// ---------------------------------------------------------------------------
// One pass, as a function of the grid
// ---------------------------------------------------------------------------

/// The scan step of a settle pass at cell `(x, y)`: fall straight down if
/// the cell below is free, else cascade to a free diagonal, preferring the
/// side given by the pass parity when both are free.
pub open spec fn pass_cell(g: Seq<u8>, gw: int, gh: int, left_first: bool, x: int, y: int) -> Seq<
    u8,
> {
    let i = y * gw + x;
    let c = g[i];
    if c == 0 {
        g
    } else if g[(y + 1) * gw + x] == 0 {
        g.update((y + 1) * gw + x, c).update(i, 0)
    } else {
        let can_left = x > 0 && g[(y + 1) * gw + x - 1] == 0;
        let can_right = x + 1 < gw && g[(y + 1) * gw + x + 1] == 0;
        let go_left = if can_left && can_right {
            left_first
        } else {
            can_left
        };
        if go_left {
            g.update((y + 1) * gw + x - 1, c).update(i, 0)
        } else if can_right {
            g.update((y + 1) * gw + x + 1, c).update(i, 0)
        } else {
            g
        }
    }
}

/// The pass applied to row `y`, columns `0..x`, left to right.
pub open spec fn pass_row(g: Seq<u8>, gw: int, gh: int, left_first: bool, y: int, x: int) -> Seq<
    u8,
>
    decreases x,
{
    if x <= 0 {
        g
    } else {
        pass_cell(pass_row(g, gw, gh, left_first, y, x - 1), gw, gh, left_first, x - 1, y)
    }
}

/// The pass applied to the `cnt` bottom-most scanned rows, i.e. rows
/// `gh - 2` down to `gh - 1 - cnt`.
pub open spec fn pass_rows(g: Seq<u8>, gw: int, gh: int, left_first: bool, cnt: int) -> Seq<u8>
    decreases cnt,
{
    if cnt <= 0 {
        g
    } else {
        pass_row(pass_rows(g, gw, gh, left_first, cnt - 1), gw, gh, left_first, gh - 1 - cnt, gw)
    }
}

/// One full settle pass over the grid.
pub open spec fn pass_spec(g: Seq<u8>, gw: int, gh: int, left_first: bool) -> Seq<u8> {
    pass_rows(g, gw, gh, left_first, gh - 1)
}

/// Up to `fuel` further passes starting at pass number `pass_no`, stopping
/// early when a pass changes nothing.
pub open spec fn settle_iter(g: Seq<u8>, gw: int, gh: int, pass_no: int, fuel: int) -> Seq<u8>
    decreases fuel,
{
    if fuel <= 0 {
        g
    } else {
        let g1 = pass_spec(g, gw, gh, pass_no % 2 == 0);
        if g1 == g {
            g
        } else {
            settle_iter(g1, gw, gh, pass_no + 1, fuel - 1)
        }
    }
}

/// The whole settle simulation as a function of the input grid.
pub open spec fn settle_spec(g: Seq<u8>, gw: int, gh: int) -> Seq<u8> {
    settle_iter(g, gw, gh, 0, SETTLE_PASSES as int)
}

/// Total number of occupied cells of a grid.
pub open spec fn count_occupied(g: Seq<u8>) -> int {
    g.len() - count_val(g, 0)
}

// ---------------------------------------------------------------------------
// A settled grid is a fixed point
// ---------------------------------------------------------------------------

proof fn lemma_pass_row_settled(g: Seq<u8>, gw: int, gh: int, left_first: bool, y: int, x: int)
    requires
        is_settled(g, gw, gh),
        0 <= y < gh - 1,
        0 <= x <= gw,
    ensures
        pass_row(g, gw, gh, left_first, y, x) == g,
    decreases x,
{
    if x > 0 {
        lemma_pass_row_settled(g, gw, gh, left_first, y, x - 1);
        assert(settled_at(g, gw, gh, x - 1, y));
        assert(pass_cell(g, gw, gh, left_first, x - 1, y) == g);
    }
}

proof fn lemma_pass_rows_settled(g: Seq<u8>, gw: int, gh: int, left_first: bool, cnt: int)
    requires
        is_settled(g, gw, gh),
        0 <= gw,
        0 <= cnt <= gh - 1,
    ensures
        pass_rows(g, gw, gh, left_first, cnt) == g,
    decreases cnt,
{
    if cnt > 0 {
        lemma_pass_rows_settled(g, gw, gh, left_first, cnt - 1);
        lemma_pass_row_settled(g, gw, gh, left_first, gh - 1 - cnt, gw);
    }
}

/// A grid on which no grain can move is left unchanged by a settle pass.
pub proof fn lemma_pass_settled(g: Seq<u8>, gw: int, gh: int, left_first: bool)
    requires
        is_settled(g, gw, gh),
        1 <= gh,
        0 <= gw,
    ensures
        pass_spec(g, gw, gh, left_first) == g,
{
    lemma_pass_rows_settled(g, gw, gh, left_first, gh - 1);
}

// ---------------------------------------------------------------------------
// Executable simulation
// ---------------------------------------------------------------------------

/// One bottom-up scan; reports whether any grain moved.
#[verifier::loop_isolation(false)]
fn settle_pass(grid: &mut Vec<u8>, gw: usize, gh: usize, left_first: bool) -> (moved: bool)
    requires
        grid_wf(old(grid)@, gw as int, gh as int),
        1 <= gw,
        1 <= gh,
        gw * gh <= MAX_CELLS,
    ensures
        grid_wf(final(grid)@, gw as int, gh as int),
        final(grid)@ == pass_spec(old(grid)@, gw as int, gh as int, left_first),
        forall|v: u8| count_val(final(grid)@, v) == count_val(old(grid)@, v),
        !moved ==> final(grid)@ == old(grid)@ && is_settled(old(grid)@, gw as int, gh as int),
        moved ==> pot(final(grid)@, gw as int, gh as int) <= pot(old(grid)@, gw as int, gh as int)
            - 1,
        is_settled(old(grid)@, gw as int, gh as int) ==> final(grid)@ == old(grid)@ && !moved,
{
    proof {
        lemma_dims_bounded(gw as int, gh as int);
    }
    let ghost g0 = grid@;
    let ghost gwi = gw as int;
    let ghost ghi = gh as int;
    let mut moved = false;
    let mut cnt: usize = 0;
    while cnt < gh - 1
        invariant
            cnt <= gh - 1,
            grid_wf(grid@, gwi, ghi),
            grid@ == pass_rows(g0, gwi, ghi, left_first, cnt as int),
            forall|v: u8| count_val(grid@, v) == count_val(g0, v),
            !moved ==> grid@ == g0 && (forall|x2: int, y2: int|
                0 <= x2 < gwi && ghi - 1 - cnt <= y2 < ghi - 1 ==> #[trigger] settled_at(
                    g0,
                    gwi,
                    ghi,
                    x2,
                    y2,
                )),
            moved ==> pot(grid@, gwi, ghi) <= pot(g0, gwi, ghi) - 1,
            is_settled(g0, gwi, ghi) ==> grid@ == g0 && !moved,
        decreases gh - 1 - cnt,
    {
        let y = gh - 2 - cnt;
        let ghost row_base = grid@;
        let mut x: usize = 0;
        while x < gw
            invariant
                x <= gw,
                y == gh - 2 - cnt,
                cnt < gh - 1,
                grid_wf(grid@, gwi, ghi),
                row_base == pass_rows(g0, gwi, ghi, left_first, cnt as int),
                grid@ == pass_row(row_base, gwi, ghi, left_first, y as int, x as int),
                forall|v: u8| count_val(grid@, v) == count_val(g0, v),
                !moved ==> grid@ == g0 && (forall|x2: int, y2: int|
                    0 <= x2 < gwi && ghi - 1 - cnt <= y2 < ghi - 1 ==> #[trigger] settled_at(
                        g0,
                        gwi,
                        ghi,
                        x2,
                        y2,
                    )) && (forall|x2: int|
                    0 <= x2 < x ==> #[trigger] settled_at(g0, gwi, ghi, x2, y as int)),
                moved ==> pot(grid@, gwi, ghi) <= pot(g0, gwi, ghi) - 1,
                is_settled(g0, gwi, ghi) ==> grid@ == g0 && !moved,
            decreases gw - x,
        {
            let ghost gpre = grid@;
            let idx = cell_index(gw, gh, x, y);
            let c = grid[idx];
            if c != 0 {
                let below = cell_index(gw, gh, x, y + 1);
                if grid[below] == 0 {
                    grid.set(below, c);
                    grid.set(idx, 0);
                    proof {
                        lemma_move_grain(gpre, gwi, ghi, x as int, y as int, x as int);
                        if !moved {
                            assert(gpre == g0);
                        }
                        if is_settled(g0, gwi, ghi) {
                            assert(settled_at(g0, gwi, ghi, x as int, y as int));
                            assert(false);
                        }
                    }
                    moved = true;
                } else {
                    let can_left = x > 0 && {
                        let dl = cell_index(gw, gh, x - 1, y + 1);
                        grid[dl] == 0
                    };
                    let can_right = x + 1 < gw && {
                        let dr = cell_index(gw, gh, x + 1, y + 1);
                        grid[dr] == 0
                    };
                    let go_left = if can_left && can_right {
                        left_first
                    } else {
                        can_left
                    };
                    if go_left {
                        let dl = cell_index(gw, gh, x - 1, y + 1);
                        grid.set(dl, c);
                        grid.set(idx, 0);
                        proof {
                            lemma_move_grain(gpre, gwi, ghi, x as int, y as int, x as int - 1);
                            if is_settled(g0, gwi, ghi) {
                                assert(settled_at(g0, gwi, ghi, x as int, y as int));
                                assert(false);
                            }
                        }
                        moved = true;
                    } else if can_right {
                        let dr = cell_index(gw, gh, x + 1, y + 1);
                        grid.set(dr, c);
                        grid.set(idx, 0);
                        proof {
                            lemma_move_grain(gpre, gwi, ghi, x as int, y as int, x as int + 1);
                            if is_settled(g0, gwi, ghi) {
                                assert(settled_at(g0, gwi, ghi, x as int, y as int));
                                assert(false);
                            }
                        }
                        moved = true;
                    } else {
                        proof {
                            if !moved {
                                assert(settled_at(g0, gwi, ghi, x as int, y as int));
                            }
                        }
                    }
                }
            } else {
                proof {
                    if !moved {
                        assert(settled_at(g0, gwi, ghi, x as int, y as int));
                    }
                }
            }
            proof {
                assert(grid@ == pass_cell(gpre, gwi, ghi, left_first, x as int, y as int));
                assert(pass_row(row_base, gwi, ghi, left_first, y as int, x as int + 1)
                    == pass_cell(
                    pass_row(row_base, gwi, ghi, left_first, y as int, x as int),
                    gwi,
                    ghi,
                    left_first,
                    x as int,
                    y as int,
                ));
            }
            x = x + 1;
        }
        proof {
            assert(pass_rows(g0, gwi, ghi, left_first, cnt as int + 1) == pass_row(
                pass_rows(g0, gwi, ghi, left_first, cnt as int),
                gwi,
                ghi,
                left_first,
                ghi - 2 - cnt,
                gwi,
            ));
        }
        cnt = cnt + 1;
    }
    moved
}

/// Relax the grid: run settle passes until one moves nothing, or until the
/// pass cap is reached.  Grains are only repositioned, never created or
/// destroyed, and an already stable grid is returned unchanged.
#[verifier::loop_isolation(false)]
pub fn settle_sand(grid: &mut Vec<u8>, gw: usize, gh: usize)
    requires
        grid_wf(old(grid)@, gw as int, gh as int),
        1 <= gw,
        1 <= gh,
        gw * gh <= MAX_CELLS,
    ensures
        grid_wf(final(grid)@, gw as int, gh as int),
        final(grid)@ == settle_spec(old(grid)@, gw as int, gh as int),
        forall|v: u8| count_val(final(grid)@, v) == count_val(old(grid)@, v),
        count_occupied(final(grid)@) == count_occupied(old(grid)@),
        is_settled(old(grid)@, gw as int, gh as int) ==> final(grid)@ == old(grid)@,
        is_settled(final(grid)@, gw as int, gh as int) || pot(old(grid)@, gw as int, gh as int)
            >= pot(final(grid)@, gw as int, gh as int) + SETTLE_PASSES,
{
    proof {
        lemma_dims_bounded(gw as int, gh as int);
    }
    let ghost g0 = grid@;
    let ghost gwi = gw as int;
    let ghost ghi = gh as int;
    let mut pass: usize = 0;
    let mut done: bool = false;
    while !done && pass < SETTLE_PASSES
        invariant
            pass <= SETTLE_PASSES,
            grid_wf(grid@, gwi, ghi),
            forall|v: u8| count_val(grid@, v) == count_val(g0, v),
            settle_iter(grid@, gwi, ghi, pass as int, SETTLE_PASSES - pass) == settle_iter(
                g0,
                gwi,
                ghi,
                0,
                SETTLE_PASSES as int,
            ),
            is_settled(g0, gwi, ghi) ==> grid@ == g0,
            !done ==> pot(g0, gwi, ghi) >= pot(grid@, gwi, ghi) + pass,
            done ==> is_settled(grid@, gwi, ghi),
        decreases SETTLE_PASSES - pass,
    {
        let ghost gpre = grid@;
        let lf = pass % 2 == 0;
        let moved = settle_pass(grid, gw, gh, lf);
        proof {
            assert(lf == (pass as int % 2 == 0));
        }
        if !moved {
            done = true;
        }
        pass = pass + 1;
        proof {
            let fuel_pre = SETTLE_PASSES - (pass - 1);
            assert(fuel_pre > 0);
            if done {
                assert(grid@ == gpre);
                assert(pass_spec(gpre, gwi, ghi, lf) == gpre);
                assert(settle_iter(gpre, gwi, ghi, pass - 1, fuel_pre) == gpre);
                let fuel_now = SETTLE_PASSES - pass as int;
                if fuel_now > 0 {
                    lemma_pass_settled(grid@, gwi, ghi, pass as int % 2 == 0);
                    assert(settle_iter(grid@, gwi, ghi, pass as int, fuel_now) == grid@);
                } else {
                    assert(settle_iter(grid@, gwi, ghi, pass as int, fuel_now) == grid@);
                }
            } else {
                let g1 = pass_spec(gpre, gwi, ghi, lf);
                assert(grid@ == g1);
                assert(pot(g1, gwi, ghi) <= pot(gpre, gwi, ghi) - 1);
                assert(g1 != gpre);
                assert(settle_iter(gpre, gwi, ghi, pass - 1, fuel_pre) == settle_iter(
                    g1,
                    gwi,
                    ghi,
                    pass as int,
                    fuel_pre - 1,
                ));
            }
        }
    }
    proof {
        let fuel_end = SETTLE_PASSES - pass as int;
        if done {
            if fuel_end > 0 {
                lemma_pass_settled(grid@, gwi, ghi, pass as int % 2 == 0);
            }
            assert(settle_iter(grid@, gwi, ghi, pass as int, fuel_end) == grid@);
        } else {
            assert(fuel_end == 0);
            assert(settle_iter(grid@, gwi, ghi, pass as int, fuel_end) == grid@);
        }
    }
}

/// Once the simulation has converged — its output is a stable grid, which
/// holds whenever the board settles within the pass cap — running it again
/// on that output changes nothing.
pub proof fn lemma_settle_idempotent(g: Seq<u8>, gw: int, gh: int)
    requires
        0 <= gw,
        1 <= gh,
        is_settled(settle_spec(g, gw, gh), gw, gh),
    ensures
        settle_spec(settle_spec(g, gw, gh), gw, gh) == settle_spec(g, gw, gh),
{
    let s = settle_spec(g, gw, gh);
    lemma_pass_settled(s, gw, gh, true);
    assert(settle_iter(s, gw, gh, 0, SETTLE_PASSES as int) == s);
}

} // verus!
