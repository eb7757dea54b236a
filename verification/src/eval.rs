//! The board evaluator: map a settled grid to one exact integer score.
//!
//! Every weight of the heuristic is scaled by `40 * gw`, which turns each
//! term — including the fractional reach bonuses — into an integer with no
//! rounding: a returned score is exactly `40 * gw` times the real-valued
//! weighted sum the heuristic is tuned in.

use vstd::prelude::*;

use crate::clears::{count_spanning_clears, spanning_clears};
use crate::grid::{cell_at, cell_index, lemma_dims_bounded};
use crate::state::MAX_CELLS;

verus! {

// ---------------------------------------------------------------------------
// Column statistics
// ---------------------------------------------------------------------------

/// Row of the topmost occupied cell of column `x`, scanning from row `y`;
/// `gh` when the column is empty.
pub open spec fn first_occ_from(g: Seq<u8>, gw: int, gh: int, x: int, y: int) -> int
    decreases gh - y,
{
    if y >= gh {
        gh
    } else if cell_at(g, gw, x, y) != 0 {
        y
    } else {
        first_occ_from(g, gw, gh, x, y + 1)
    }
}

/// Occupied extent of column `x`: grid height minus its topmost occupied row.
pub open spec fn col_height(g: Seq<u8>, gw: int, gh: int, x: int) -> int {
    gh - first_occ_from(g, gw, gh, x, 0)
}

/// Number of empty cells of column `x` in rows `y..gh`.
pub open spec fn empties_from(g: Seq<u8>, gw: int, gh: int, x: int, y: int) -> int
    decreases gh - y,
{
    if y >= gh {
        0
    } else {
        empties_from(g, gw, gh, x, y + 1) + if cell_at(g, gw, x, y) == 0 {
            1int
        } else {
            0int
        }
    }
}

/// Holes of column `x`: empty cells strictly below its topmost occupied cell.
pub open spec fn holes_col(g: Seq<u8>, gw: int, gh: int, x: int) -> int {
    empties_from(g, gw, gh, x, first_occ_from(g, gw, gh, x, 0))
}

pub open spec fn holes_upto(g: Seq<u8>, gw: int, gh: int, x_end: int) -> int
    decreases x_end,
{
    if x_end <= 0 {
        0
    } else {
        holes_upto(g, gw, gh, x_end - 1) + holes_col(g, gw, gh, x_end - 1)
    }
}

pub open spec fn agg_upto(g: Seq<u8>, gw: int, gh: int, x_end: int) -> int
    decreases x_end,
{
    if x_end <= 0 {
        0
    } else {
        agg_upto(g, gw, gh, x_end - 1) + col_height(g, gw, gh, x_end - 1)
    }
}

pub open spec fn max_upto(g: Seq<u8>, gw: int, gh: int, x_end: int) -> int
    decreases x_end,
{
    if x_end <= 0 {
        0
    } else {
        let m = max_upto(g, gw, gh, x_end - 1);
        let h = col_height(g, gw, gh, x_end - 1);
        if h > m {
            h
        } else {
            m
        }
    }
}

pub open spec fn diff_abs(a: int, b: int) -> int {
    if a >= b {
        a - b
    } else {
        b - a
    }
}

/// Sum of absolute height differences of adjacent columns `0..x_end`.
pub open spec fn bump_upto(g: Seq<u8>, gw: int, gh: int, x_end: int) -> int
    decreases x_end,
{
    if x_end <= 1 {
        0
    } else {
        bump_upto(g, gw, gh, x_end - 1) + diff_abs(
            col_height(g, gw, gh, x_end - 1),
            col_height(g, gw, gh, x_end - 2),
        )
    }
}

/// Height of and holes below the top of one column.
#[verifier::loop_isolation(false)]
fn column_stats(grid: &Vec<u8>, gw: usize, gh: usize, x: usize) -> (hs: (usize, usize))
    requires
        grid@.len() == gw * gh,
        gw * gh <= MAX_CELLS,
        1 <= gw,
        1 <= gh,
        x < gw,
    ensures
        hs.0 == col_height(grid@, gw as int, gh as int, x as int),
        hs.1 == holes_col(grid@, gw as int, gh as int, x as int),
        hs.0 <= gh,
        hs.1 <= gh,
{
    let ghost gwi = gw as int;
    let ghost ghi = gh as int;
    let ghost xi = x as int;
    let mut y: usize = 0;
    let mut found = false;
    while !found && y < gh
        invariant
            y <= gh,
            first_occ_from(grid@, gwi, ghi, xi, 0) == first_occ_from(grid@, gwi, ghi, xi, y as int),
            found ==> y < gh && cell_at(grid@, gwi, xi, y as int) != 0,
        decreases gh - y + (if found {
            0int
        } else {
            1int
        }),
    {
        let idx = cell_index(gw, gh, x, y);
        if grid[idx] != 0 {
            found = true;
        } else {
            y = y + 1;
        }
    }
    let top = y;
    proof {
        assert(first_occ_from(grid@, gwi, ghi, xi, 0) == top);
    }
    let mut holes: usize = 0;
    let mut y2: usize = top;
    while y2 < gh
        invariant
            top <= y2 <= gh,
            holes <= y2 - top,
            empties_from(grid@, gwi, ghi, xi, top as int) == holes + empties_from(
                grid@,
                gwi,
                ghi,
                xi,
                y2 as int,
            ),
        decreases gh - y2,
    {
        let idx = cell_index(gw, gh, x, y2);
        if grid[idx] == 0 {
            holes = holes + 1;
        }
        y2 = y2 + 1;
    }
    (gh - top, holes)
}

// ---------------------------------------------------------------------------
// Cell-predicate counting
// ---------------------------------------------------------------------------

/// How many cells `(x, y)` with `x < x_end` of row `y` satisfy `p`.
pub open spec fn count_row(p: spec_fn(int, int) -> bool, y: int, x_end: int) -> int
    decreases x_end,
{
    if x_end <= 0 {
        0
    } else {
        count_row(p, y, x_end - 1) + if p(x_end - 1, y) {
            1int
        } else {
            0int
        }
    }
}

/// How many cells of rows `0..y_end` satisfy `p`.
pub open spec fn count_rows(p: spec_fn(int, int) -> bool, gw: int, y_end: int) -> int
    decreases y_end,
{
    if y_end <= 0 {
        0
    } else {
        count_rows(p, gw, y_end - 1) + count_row(p, y_end - 1, gw)
    }
}

/// An occupied cell whose right neighbor holds the same color.
pub open spec fn hadj_pred(g: Seq<u8>, gw: int) -> spec_fn(int, int) -> bool {
    |x: int, y: int| g[y * gw + x] != 0 && x + 1 < gw && g[y * gw + x + 1] == g[y * gw + x]
}

/// An occupied cell whose lower neighbor holds the same color.
pub open spec fn vadj_pred(g: Seq<u8>, gw: int, gh: int) -> spec_fn(int, int) -> bool {
    |x: int, y: int| g[y * gw + x] != 0 && y + 1 < gh && g[(y + 1) * gw + x] == g[y * gw + x]
}

/// A cell of color `v` with a same-color neighbor to its left or right.
pub open spec fn prox_pred(g: Seq<u8>, gw: int, v: u8) -> spec_fn(int, int) -> bool {
    |x: int, y: int|
        g[y * gw + x] == v && v != 0 && ((x > 0 && g[y * gw + x - 1] == v) || (x + 1 < gw && g[y
            * gw + x + 1] == v))
}

pub open spec fn h_adj_total(g: Seq<u8>, gw: int, gh: int) -> int {
    count_rows(hadj_pred(g, gw), gw, gh)
}

pub open spec fn v_adj_total(g: Seq<u8>, gw: int, gh: int) -> int {
    count_rows(vadj_pred(g, gw, gh), gw, gh)
}

/// Placement proximity of color value `v`: how many cells of that color
/// have at least one horizontal same-color neighbor, each counted once.
pub open spec fn proximity(g: Seq<u8>, gw: int, gh: int, v: u8) -> int {
    count_rows(prox_pred(g, gw, v), gw, gh)
}

/// Horizontal and vertical same-color adjacent pair counts.
#[verifier::loop_isolation(false)]
fn adjacency_counts(grid: &Vec<u8>, gw: usize, gh: usize) -> (r: (usize, usize))
    requires
        grid@.len() == gw * gh,
        gw * gh <= MAX_CELLS,
        1 <= gw,
        1 <= gh,
    ensures
        r.0 == h_adj_total(grid@, gw as int, gh as int),
        r.1 == v_adj_total(grid@, gw as int, gh as int),
        r.0 <= gw * gh,
        r.1 <= gw * gh,
{
    proof {
        lemma_dims_bounded(gw as int, gh as int);
    }
    let ghost gwi = gw as int;
    let ghost ghi = gh as int;
    let ghost hp = hadj_pred(grid@, gwi);
    let ghost vp = vadj_pred(grid@, gwi, ghi);
    let mut hadj: usize = 0;
    let mut vadj: usize = 0;
    let mut y: usize = 0;
    while y < gh
        invariant
            y <= gh,
            hadj == count_rows(hp, gwi, y as int),
            vadj == count_rows(vp, gwi, y as int),
            hadj <= gw * y,
            vadj <= gw * y,
        decreases gh - y,
    {
        let mut x: usize = 0;
        while x < gw
            invariant
                x <= gw,
                y < gh,
                hadj == count_rows(hp, gwi, y as int) + count_row(hp, y as int, x as int),
                vadj == count_rows(vp, gwi, y as int) + count_row(vp, y as int, x as int),
                hadj <= gw * y + x,
                vadj <= gw * y + x,
            decreases gw - x,
        {
            proof {
                assert(gw * (y as int) + x < gw * gh) by (nonlinear_arith)
                    requires
                        0 <= x < gw,
                        0 <= y < gh,
                ;
            }
            let idx = cell_index(gw, gh, x, y);
            let c = grid[idx];
            if c != 0 {
                if x + 1 < gw {
                    let ridx = cell_index(gw, gh, x + 1, y);
                    if grid[ridx] == c {
                        hadj = hadj + 1;
                    }
                }
                if y + 1 < gh {
                    let didx = cell_index(gw, gh, x, y + 1);
                    if grid[didx] == c {
                        vadj = vadj + 1;
                    }
                }
            }
            x = x + 1;
        }
        proof {
            assert(gw * (y + 1) == gw * y + gw) by (nonlinear_arith);
            assert(gw * (y as int + 1) <= gw * gh) by (nonlinear_arith)
                requires
                    y as int + 1 <= gh,
                    0 <= gw,
            ;
        }
        y = y + 1;
    }
    (hadj, vadj)
}

/// How many grains of color value `color_val` stand next to a same-color
/// grain on their left or right; each such grain counts once.
#[verifier::loop_isolation(false)]
pub fn same_color_proximity(grid: &Vec<u8>, gw: usize, gh: usize, color_val: u8) -> (n: usize)
    requires
        grid@.len() == gw * gh,
        gw * gh <= MAX_CELLS,
        1 <= gw,
        1 <= gh,
        color_val >= 1,
    ensures
        n == proximity(grid@, gw as int, gh as int, color_val),
        n <= gw * gh,
{
    proof {
        lemma_dims_bounded(gw as int, gh as int);
    }
    let ghost gwi = gw as int;
    let ghost ghi = gh as int;
    let ghost pp = prox_pred(grid@, gwi, color_val);
    let mut n: usize = 0;
    let mut y: usize = 0;
    while y < gh
        invariant
            y <= gh,
            n == count_rows(pp, gwi, y as int),
            n <= gw * y,
        decreases gh - y,
    {
        let mut x: usize = 0;
        while x < gw
            invariant
                x <= gw,
                y < gh,
                n == count_rows(pp, gwi, y as int) + count_row(pp, y as int, x as int),
                n <= gw * y + x,
            decreases gw - x,
        {
            proof {
                assert(gw * (y as int) + x < gw * gh) by (nonlinear_arith)
                    requires
                        0 <= x < gw,
                        0 <= y < gh,
                ;
            }
            let idx = cell_index(gw, gh, x, y);
            if grid[idx] == color_val {
                let left_match = x > 0 && {
                    let lidx = cell_index(gw, gh, x - 1, y);
                    grid[lidx] == color_val
                };
                let right_match = x + 1 < gw && {
                    let ridx = cell_index(gw, gh, x + 1, y);
                    grid[ridx] == color_val
                };
                if left_match || right_match {
                    n = n + 1;
                }
            }
            x = x + 1;
        }
        proof {
            assert(gw * (y + 1) == gw * y + gw) by (nonlinear_arith);
            assert(gw * (y as int + 1) <= gw * gh) by (nonlinear_arith)
                requires
                    y as int + 1 <= gh,
                    0 <= gw,
            ;
        }
        y = y + 1;
    }
    n
}

// ---------------------------------------------------------------------------
// Horizontal reach per color
// ---------------------------------------------------------------------------

/// Some cell of column `x` holds color value `c`.
pub open spec fn col_has(g: Seq<u8>, gw: int, gh: int, x: int, c: u8) -> bool {
    exists|y: int| 0 <= y < gh && #[trigger] cell_at(g, gw, x, y) == c
}

/// Leftmost column at or right of `x` holding color `c`; `gw` if none.
pub open spec fn min_col_from(g: Seq<u8>, gw: int, gh: int, c: u8, x: int) -> int
    decreases gw - x,
{
    if x >= gw {
        gw
    } else if col_has(g, gw, gh, x, c) {
        x
    } else {
        min_col_from(g, gw, gh, c, x + 1)
    }
}

/// Rightmost column at or left of `x` holding color `c`; `-1` if none.
pub open spec fn max_col_from(g: Seq<u8>, gw: int, gh: int, c: u8, x: int) -> int
    decreases x + 1,
{
    if x < 0 {
        -1
    } else if col_has(g, gw, gh, x, c) {
        x
    } else {
        max_col_from(g, gw, gh, c, x - 1)
    }
}

proof fn lemma_min_col_bounds(g: Seq<u8>, gw: int, gh: int, c: u8, x: int)
    requires
        0 <= x <= gw,
    ensures
        x <= min_col_from(g, gw, gh, c, x) <= gw,
        min_col_from(g, gw, gh, c, x) < gw ==> col_has(g, gw, gh, min_col_from(g, gw, gh, c, x), c),
    decreases gw - x,
{
    if x < gw && !col_has(g, gw, gh, x, c) {
        lemma_min_col_bounds(g, gw, gh, c, x + 1);
    }
}

proof fn lemma_max_col_bounds(g: Seq<u8>, gw: int, gh: int, c: u8, x: int)
    requires
        -1 <= x,
    ensures
        -1 <= max_col_from(g, gw, gh, c, x) <= x,
    decreases x + 1,
{
    if x >= 0 && !col_has(g, gw, gh, x, c) {
        lemma_max_col_bounds(g, gw, gh, c, x - 1);
    }
}

/// The reach contribution of one color, scaled by `40 * gw`: the span part
/// above half width, the both-edges bonus, and one touch bonus per edge.
pub open spec fn reach_term(g: Seq<u8>, gw: int, gh: int, c: u8) -> int {
    let mn = min_col_from(g, gw, gh, c, 0);
    let mx = max_col_from(g, gw, gh, c, gw - 1);
    if mn >= mx {
        0
    } else {
        let d = mx - mn;
        (if 2 * d > gw {
            200 * d - 100 * gw
        } else {
            0int
        }) + (if mn == 0 && mx == gw - 1 {
            150 * gw
        } else {
            0int
        }) + (if mn == 0 {
            25 * d
        } else {
            0int
        }) + (if mx == gw - 1 {
            25 * d
        } else {
            0int
        })
    }
}

pub open spec fn reach_upto(g: Seq<u8>, gw: int, gh: int, c_end: int) -> int
    decreases c_end,
{
    if c_end <= 0 {
        0
    } else {
        reach_upto(g, gw, gh, c_end - 1) + reach_term(g, gw, gh, c_end as u8)
    }
}

/// Total reach bonus over the six colors, scaled by `40 * gw`.
pub open spec fn reach_total(g: Seq<u8>, gw: int, gh: int) -> int {
    reach_upto(g, gw, gh, 6)
}

#[verifier::loop_isolation(false)]
fn col_has_color(grid: &Vec<u8>, gw: usize, gh: usize, x: usize, c: u8) -> (r: bool)
    requires
        grid@.len() == gw * gh,
        gw * gh <= MAX_CELLS,
        1 <= gw,
        1 <= gh,
        x < gw,
    ensures
        r == col_has(grid@, gw as int, gh as int, x as int, c),
{
    let ghost gwi = gw as int;
    let mut y: usize = 0;
    while y < gh
        invariant
            y <= gh,
            forall|y2: int| 0 <= y2 < y ==> #[trigger] cell_at(grid@, gwi, x as int, y2) != c,
        decreases gh - y,
    {
        let idx = cell_index(gw, gh, x, y);
        if grid[idx] == c {
            proof {
                assert(cell_at(grid@, gwi, x as int, y as int) == c);
            }
            return true;
        }
        y = y + 1;
    }
    false
}

#[verifier::loop_isolation(false)]
fn min_col(grid: &Vec<u8>, gw: usize, gh: usize, c: u8) -> (m: usize)
    requires
        grid@.len() == gw * gh,
        gw * gh <= MAX_CELLS,
        1 <= gw,
        1 <= gh,
    ensures
        m == min_col_from(grid@, gw as int, gh as int, c, 0),
        m <= gw,
{
    let ghost gwi = gw as int;
    let ghost ghi = gh as int;
    let mut x: usize = 0;
    while x < gw
        invariant
            x <= gw,
            min_col_from(grid@, gwi, ghi, c, 0) == min_col_from(grid@, gwi, ghi, c, x as int),
        decreases gw - x,
    {
        if col_has_color(grid, gw, gh, x, c) {
            return x;
        }
        x = x + 1;
    }
    gw
}

#[verifier::loop_isolation(false)]
fn max_col(grid: &Vec<u8>, gw: usize, gh: usize, c: u8, mn: usize) -> (m: usize)
    requires
        grid@.len() == gw * gh,
        gw * gh <= MAX_CELLS,
        1 <= gw,
        1 <= gh,
        mn < gw,
        col_has(grid@, gw as int, gh as int, mn as int, c),
    ensures
        m == max_col_from(grid@, gw as int, gh as int, c, gw as int - 1),
        mn <= m < gw,
{
    let ghost gwi = gw as int;
    let ghost ghi = gh as int;
    let mut x: usize = gw - 1;
    loop
        invariant
            mn <= x < gw,
            max_col_from(grid@, gwi, ghi, c, gwi - 1) == max_col_from(grid@, gwi, ghi, c, x as int),
        decreases x,
    {
        if col_has_color(grid, gw, gh, x, c) {
            return x;
        }
        proof {
            assert(x as int != mn as int);
        }
        x = x - 1;
    }
}

/// Total reach bonus of the grid, scaled by `40 * gw`.
#[verifier::loop_isolation(false)]
pub fn color_reach_bonus(grid: &Vec<u8>, gw: usize, gh: usize) -> (b: i64)
    requires
        grid@.len() == gw * gh,
        gw * gh <= MAX_CELLS,
        1 <= gw,
        1 <= gh,
    ensures
        b == reach_total(grid@, gw as int, gh as int),
        0 <= b <= 2400000000,
{
    proof {
        lemma_dims_bounded(gw as int, gh as int);
    }
    let ghost gwi = gw as int;
    let ghost ghi = gh as int;
    let mut b: i64 = 0;
    let mut color: u8 = 1;
    while color <= 6
        invariant
            1 <= color <= 7,
            b == reach_upto(grid@, gwi, ghi, color as int - 1),
            0 <= b <= (color as int - 1) * 400000000,
        decreases 7 - color,
    {
        let mn = min_col(grid, gw, gh, color);
        proof {
            lemma_min_col_bounds(grid@, gwi, ghi, color, 0);
            lemma_max_col_bounds(grid@, gwi, ghi, color, gwi - 1);
        }
        let term: i64 = if mn >= gw {
            0
        } else {
            let mx = max_col(grid, gw, gh, color, mn);
            if mn >= mx {
                0
            } else {
                let d: i64 = (mx - mn) as i64;
                let gwl: i64 = gw as i64;
                let mut t: i64 = 0;
                if 2 * d > gwl {
                    t = t + 200 * d - 100 * gwl;
                }
                if mn == 0 && mx == gw - 1 {
                    t = t + 150 * gwl;
                }
                if mn == 0 {
                    t = t + 25 * d;
                }
                if mx == gw - 1 {
                    t = t + 25 * d;
                }
                t
            }
        };
        proof {
            assert(term == reach_term(grid@, gwi, ghi, color));
            assert(0 <= term <= 400 * gwi);
            assert(0 <= term <= 400000000);
        }
        b = b + term;
        color = color + 1;
    }
    b
}

// ---------------------------------------------------------------------------
// The assembled score
// ---------------------------------------------------------------------------

/// Whether the tallest column reaches into the danger zone near the top.
pub open spec fn in_danger(g: Seq<u8>, gw: int, gh: int) -> bool {
    max_upto(g, gw, gh, gw) > (if gh >= 10 {
        gh - 10
    } else {
        0int
    })
}

/// The full board score, scaled by `40 * gw`: spanning clears, holes, max
/// and aggregate height, bumpiness, adjacency, placement proximity, reach
/// bonus, and the flat danger penalty.
pub open spec fn spec_evaluate(g: Seq<u8>, gw: int, gh: int, placed_color: u8) -> int {
    2000 * (gw * spanning_clears(g, gw, gh)) - 320 * (gw * holes_upto(g, gw, gh, gw)) - 140 * (gw
        * max_upto(g, gw, gh, gw)) - 6 * (gw * agg_upto(g, gw, gh, gw)) - 60 * (gw * bump_upto(
        g,
        gw,
        gh,
        gw,
    )) + 32 * (gw * h_adj_total(g, gw, gh)) + 8 * (gw * v_adj_total(g, gw, gh)) + 20 * (gw
        * proximity(g, gw, gh, (placed_color + 1) as u8)) + reach_total(g, gw, gh) - (if in_danger(
        g,
        gw,
        gh,
    ) {
        4000 * gw
    } else {
        0int
    })
}

/// Score a settled board; higher is better.  The result is exactly
/// `40 * gw` times the heuristic's real-valued weighted sum.
#[verifier::loop_isolation(false)]
pub fn evaluate(grid: &Vec<u8>, gw: usize, gh: usize, placed_color: u8) -> (score: i64)
    requires
        grid@.len() == gw * gh,
        gw * gh <= MAX_CELLS,
        1 <= gw,
        1 <= gh,
        placed_color < 6,
    ensures
        score == spec_evaluate(grid@, gw as int, gh as int, placed_color),
{
    proof {
        lemma_dims_bounded(gw as int, gh as int);
    }
    let ghost gwi = gw as int;
    let ghost ghi = gh as int;

    let clears: u32 = count_spanning_clears(grid, gw, gh);

    let mut holes: usize = 0;
    let mut agg: usize = 0;
    let mut maxh: usize = 0;
    let mut bump: usize = 0;
    let mut prev_h: usize = 0;
    let mut x: usize = 0;
    while x < gw
        invariant
            x <= gw,
            holes == holes_upto(grid@, gwi, ghi, x as int),
            agg == agg_upto(grid@, gwi, ghi, x as int),
            maxh == max_upto(grid@, gwi, ghi, x as int),
            bump == bump_upto(grid@, gwi, ghi, x as int),
            holes <= x * gh,
            agg <= x * gh,
            maxh <= gh,
            bump <= x * gh,
            x > 0 ==> prev_h == col_height(grid@, gwi, ghi, x as int - 1),
        decreases gw - x,
    {
        let (h, hc) = column_stats(grid, gw, gh, x);
        proof {
            assert((x + 1) * gh == x * gh + gh) by (nonlinear_arith);
            assert((x as int + 1) * gh <= gw * gh) by (nonlinear_arith)
                requires
                    x as int + 1 <= gw,
                    0 <= gh,
            ;
        }
        holes = holes + hc;
        agg = agg + h;
        if h > maxh {
            maxh = h;
        }
        if x > 0 {
            bump = bump + (if h > prev_h {
                h - prev_h
            } else {
                prev_h - h
            });
        }
        prev_h = h;
        x = x + 1;
    }

    let (hadj, vadj) = adjacency_counts(grid, gw, gh);
    let prox = same_color_proximity(grid, gw, gh, placed_color + 1);
    let reach = color_reach_bonus(grid, gw, gh);

    proof {
        assert(0 <= gwi * (clears as int) <= 6000000000000int && 0 <= gwi * (holes as int)
            <= 6000000000000int && 0 <= gwi * (maxh as int) <= 6000000000000int && 0 <= gwi * (
        agg as int) <= 6000000000000int && 0 <= gwi * (bump as int) <= 6000000000000int && 0 <= gwi
            * (hadj as int) <= 6000000000000int && 0 <= gwi * (vadj as int) <= 6000000000000int && 0
            <= gwi * (prox as int) <= 6000000000000int) by (nonlinear_arith)
            requires
                0 <= gwi <= 1000000,
                0 <= clears as int <= 6000000,
                0 <= holes as int <= 1000000,
                0 <= maxh as int <= 1000000,
                0 <= agg as int <= 1000000,
                0 <= bump as int <= 1000000,
                0 <= hadj as int <= 1000000,
                0 <= vadj as int <= 1000000,
                0 <= prox as int <= 2000000,
        ;
    }
    let gwl: i64 = gw as i64;
    let tcl: i64 = gwl * (clears as i64);
    let tho: i64 = gwl * (holes as i64);
    let tmx: i64 = gwl * (maxh as i64);
    let tag: i64 = gwl * (agg as i64);
    let tbu: i64 = gwl * (bump as i64);
    let tha: i64 = gwl * (hadj as i64);
    let tva: i64 = gwl * (vadj as i64);
    let tpr: i64 = gwl * (prox as i64);
    let mut score: i64 = 0;
    score = score + 2000 * tcl;
    score = score - 320 * tho;
    score = score - 140 * tmx;
    score = score - 6 * tag;
    score = score - 60 * tbu;
    score = score + 32 * tha;
    score = score + 8 * tva;
    score = score + 20 * tpr;
    score = score + reach;
    let danger_line: usize = if gh >= 10 {
        gh - 10
    } else {
        0
    };
    if maxh > danger_line {
        score = score - 4000 * gwl;
    }
    score
}

} // verus!
