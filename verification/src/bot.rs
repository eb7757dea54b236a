//! The placement enumerator: try every rotation crossed with every
//! reachable column, score each candidate, keep the best, and emit its
//! action plan.

use std::collections::VecDeque;

use vstd::prelude::*;

use crate::actions::{actions_spec, build_actions, Action};
use crate::eval::{evaluate, spec_evaluate};
use crate::grid::{
    cell_at, covered, fits_at, fits_pose, grid_wf, overlay, snapshot_grid, stamp_at,
};
use crate::settle::{settle_sand, settle_spec};
use crate::state::{
    offsets_wf, state_wf, GameState, Piece, GRAIN_SCALE, MAX_CELLS, MAX_COORD, MAX_OFFSET,
};

verus! {

/// The decision engine; all state lives in the arguments of its search.
pub struct Bot;

proof fn lemma_coords(gw: int, gh: int, i: int)
    requires
        1 <= gw,
        0 <= i < gw * gh,
    ensures
        0 <= i % gw < gw,
        0 <= i / gw < gh,
        i == (i / gw) * gw + (i % gw),
{
    vstd::arithmetic::div_mod::lemma_fundamental_div_mod(i, gw);
    vstd::arithmetic::div_mod::lemma_mod_bound(i, gw);
    assert(0 <= i / gw < gh) by (nonlinear_arith)
        requires
            1 <= gw,
            0 <= i < gw * gh,
            i == gw * (i / gw) + i % gw,
            0 <= i % gw < gw,
    ;
    assert((i / gw) * gw == gw * (i / gw)) by (nonlinear_arith);
}

/// The grid with the posed shape written over it in `color`.
pub open spec fn stamp_grid(
    g: Seq<u8>,
    gw: int,
    gh: int,
    offs: Seq<(i32, i32)>,
    gx: int,
    gy: int,
    color: u8,
) -> Seq<u8> {
    Seq::new(g.len(), |i: int| if covered(offs, gx, gy, i % gw, i / gw) {
        color
    } else {
        g[i]
    })
}

/// Landing row of a straight hard drop: the last collision-free row when
/// descending one grain-row at a time from `y`.
pub open spec fn land_from(g: Seq<u8>, gw: int, gh: int, offs: Seq<(i32, i32)>, gx: int, y: int) -> int
    decreases gh + MAX_OFFSET + 1 - y,
{
    if offs.len() == 0 || y > gh + MAX_OFFSET {
        y
    } else if fits_pose(g, gw, gh, offs, gx, y + 1) {
        land_from(g, gw, gh, offs, gx, y + 1)
    } else {
        y
    }
}

/// Hard-drop search on the flat grid.
#[verifier::loop_isolation(false)]
fn drop_piece(grid: &Vec<u8>, gw: usize, gh: usize, offs: &Vec<(i32, i32)>, gx: i32) -> (ly: i32)
    requires
        grid@.len() == gw * gh,
        gw * gh <= MAX_CELLS,
        1 <= gw,
        1 <= gh,
        offsets_wf(offs@),
        -2 * MAX_COORD <= gx <= 2 * MAX_COORD,
    ensures
        ly == land_from(grid@, gw as int, gh as int, offs@, gx as int, 0),
        0 <= ly <= gh + MAX_OFFSET,
{
    proof {
        crate::grid::lemma_dims_bounded(gw as int, gh as int);
    }
    let ghost gwi = gw as int;
    let ghost ghi = gh as int;
    let mut land_y: i32 = 0;
    loop
        invariant
            0 <= land_y <= gh + MAX_OFFSET,
            land_from(grid@, gwi, ghi, offs@, gx as int, 0) == land_from(
                grid@,
                gwi,
                ghi,
                offs@,
                gx as int,
                land_y as int,
            ),
        decreases gh + MAX_OFFSET + 1 - land_y,
    {
        if !fits_at(grid, gw, gh, offs, gx, land_y + 1) {
            return land_y;
        }
        proof {
            let o0 = offs@[0];
            crate::grid::lemma_block_fits_cell(
                grid@,
                gwi,
                ghi,
                gx as int + o0.0,
                land_y as int + 1 + o0.1,
                0,
                0,
            );
        }
        land_y = land_y + 1;
    }
}

/// Score of one `(rotation, step)` candidate: `None` when it is outside
/// the margin or collides at spawn height; otherwise the evaluator's score
/// of the dropped, stamped and settled copy of the snapshot.
pub open spec fn candidate_score(g: Seq<u8>, gw: int, gh: int, p: Piece, r: int, step: int) -> Option<
    int,
> {
    let offs = p.shape@[r]@;
    let tgx = p.gx + step * (GRAIN_SCALE as int);
    if tgx < -2 * (GRAIN_SCALE as int) || tgx > gw + GRAIN_SCALE {
        None
    } else if !fits_pose(g, gw, gh, offs, tgx, 0) {
        None
    } else {
        let ly = land_from(g, gw, gh, offs, tgx, 0);
        let stamped = stamp_grid(g, gw, gh, offs, tgx, ly, (p.color_index + 1) as u8);
        let settled = settle_spec(stamped, gw, gh);
        Some(spec_evaluate(settled, gw, gh, p.color_index))
    }
}

/// Fold of rotation `r`'s candidates over steps `min_step..step_end`, in
/// ascending order; a candidate replaces the running best only when its
/// score strictly exceeds it, so the earliest best is kept.
/// The running value is `(found, score, rotation, target_gx)`.
pub open spec fn best_in_rot(
    g: Seq<u8>,
    gw: int,
    gh: int,
    p: Piece,
    r: int,
    min_step: int,
    step_end: int,
    cur: (bool, int, int, int),
) -> (bool, int, int, int)
    decreases step_end - min_step,
{
    if step_end <= min_step {
        cur
    } else {
        let prev = best_in_rot(g, gw, gh, p, r, min_step, step_end - 1, cur);
        let step = step_end - 1;
        match candidate_score(g, gw, gh, p, r, step) {
            Some(sc) => if !prev.0 || sc > prev.1 {
                (true, sc, r, p.gx + step * (GRAIN_SCALE as int))
            } else {
                prev
            },
            None => prev,
        }
    }
}

/// Fold of rotations `0..r_end`, each over the whole step range.
pub open spec fn best_upto_rot(
    g: Seq<u8>,
    gw: int,
    gh: int,
    p: Piece,
    r_end: int,
    min_step: int,
    max_step: int,
    init: (bool, int, int, int),
) -> (bool, int, int, int)
    decreases r_end,
{
    if r_end <= 0 {
        init
    } else {
        best_in_rot(
            g,
            gw,
            gh,
            p,
            r_end - 1,
            min_step,
            max_step + 1,
            best_upto_rot(g, gw, gh, p, r_end - 1, min_step, max_step, init),
        )
    }
}

/// The plan the search emits for a state: empty without a piece; otherwise
/// the action sequence realizing the best candidate, or a bare hard drop
/// when no candidate is feasible.
pub open spec fn find_best_move_spec(s: GameState) -> Seq<Action> {
    match s.piece {
        None => Seq::empty(),
        Some(p) => {
            let g = overlay(s.settled@, s.frozen@, s.gw as int, s.gh as int);
            let bw = (s.gw as int) / (GRAIN_SCALE as int);
            let init = (false, 0int, p.rotation as int, p.gx as int);
            let best = best_upto_rot(g, s.gw as int, s.gh as int, p, 4, -bw - 1, bw + 1, init);
            actions_spec(p.rotation as int, best.2, p.gx as int, best.3)
        },
    }
}

/// A piece that fits at some row still fits where its hard drop lands.
proof fn lemma_land_keeps_fit(g: Seq<u8>, gw: int, gh: int, offs: Seq<(i32, i32)>, gx: int, y: int)
    requires
        offs.len() >= 1,
        fits_pose(g, gw, gh, offs, gx, y),
    ensures
        fits_pose(g, gw, gh, offs, gx, land_from(g, gw, gh, offs, gx, y)),
    decreases gh + MAX_OFFSET + 1 - y,
{
    if !(offs.len() == 0 || y > gh + MAX_OFFSET) && fits_pose(g, gw, gh, offs, gx, y + 1) {
        lemma_land_keeps_fit(g, gw, gh, offs, gx, y + 1);
    }
}

/// What one rotation's fold can produce: either the running value is kept,
/// or some searched step was accepted; a feasible step forces acceptance.
proof fn lemma_best_in_rot_props(
    g: Seq<u8>,
    gw: int,
    gh: int,
    p: Piece,
    r: int,
    min_step: int,
    step_end: int,
    cur: (bool, int, int, int),
)
    ensures
        ({
            let res = best_in_rot(g, gw, gh, p, r, min_step, step_end, cur);
            &&& (res == cur || (res.0 && exists|step: int|
                min_step <= step < step_end && #[trigger] candidate_score(g, gw, gh, p, r, step)
                    == Some(res.1) && res.2 == r && res.3 == p.gx + step * (GRAIN_SCALE as int)))
            &&& (cur.0 ==> res.0)
            &&& (forall|step: int|
                min_step <= step < step_end && (#[trigger] candidate_score(
                    g,
                    gw,
                    gh,
                    p,
                    r,
                    step,
                )) is Some ==> res.0)
        }),
    decreases step_end - min_step,
{
    if step_end > min_step {
        lemma_best_in_rot_props(g, gw, gh, p, r, min_step, step_end - 1, cur);
        let prev = best_in_rot(g, gw, gh, p, r, min_step, step_end - 1, cur);
        let res = best_in_rot(g, gw, gh, p, r, min_step, step_end, cur);
        let step = step_end - 1;
        match candidate_score(g, gw, gh, p, r, step) {
            Some(sc) => {
                if !prev.0 || sc > prev.1 {
                    assert(candidate_score(g, gw, gh, p, r, step) == Some(res.1));
                } else {
                    assert(res == prev);
                    if prev != cur {
                        let w = choose|step2: int|
                            min_step <= step2 < step_end - 1 && #[trigger] candidate_score(
                                g,
                                gw,
                                gh,
                                p,
                                r,
                                step2,
                            ) == Some(prev.1) && prev.2 == r && prev.3 == p.gx + step2 * (
                            GRAIN_SCALE as int);
                        assert(candidate_score(g, gw, gh, p, r, w) == Some(res.1));
                    }
                }
            },
            None => {
                assert(res == prev);
                if prev != cur {
                    let w = choose|step2: int|
                        min_step <= step2 < step_end - 1 && #[trigger] candidate_score(
                            g,
                            gw,
                            gh,
                            p,
                            r,
                            step2,
                        ) == Some(prev.1) && prev.2 == r && prev.3 == p.gx + step2 * (
                        GRAIN_SCALE as int);
                    assert(candidate_score(g, gw, gh, p, r, w) == Some(res.1));
                }
            },
        }
    }
}

/// What the whole fold can produce, over every searched rotation.
proof fn lemma_best_upto_rot_props(
    g: Seq<u8>,
    gw: int,
    gh: int,
    p: Piece,
    r_end: int,
    min_step: int,
    max_step: int,
    init: (bool, int, int, int),
)
    ensures
        ({
            let res = best_upto_rot(g, gw, gh, p, r_end, min_step, max_step, init);
            &&& (res == init || (res.0 && exists|r: int, step: int|
                0 <= r < r_end && min_step <= step <= max_step && #[trigger] candidate_score(
                    g,
                    gw,
                    gh,
                    p,
                    r,
                    step,
                ) == Some(res.1) && res.2 == r && res.3 == p.gx + step * (GRAIN_SCALE as int)))
            &&& (init.0 ==> res.0)
            &&& (forall|r: int, step: int|
                0 <= r < r_end && min_step <= step <= max_step && (#[trigger] candidate_score(
                    g,
                    gw,
                    gh,
                    p,
                    r,
                    step,
                )) is Some ==> res.0)
        }),
    decreases r_end,
{
    if r_end > 0 {
        lemma_best_upto_rot_props(g, gw, gh, p, r_end - 1, min_step, max_step, init);
        let prevrot = best_upto_rot(g, gw, gh, p, r_end - 1, min_step, max_step, init);
        lemma_best_in_rot_props(g, gw, gh, p, r_end - 1, min_step, max_step + 1, prevrot);
        let res = best_upto_rot(g, gw, gh, p, r_end, min_step, max_step, init);
        if res == prevrot {
            if prevrot != init {
                let (wr, ws) = choose|r: int, step: int|
                    0 <= r < r_end - 1 && min_step <= step <= max_step && #[trigger] candidate_score(
                        g,
                        gw,
                        gh,
                        p,
                        r,
                        step,
                    ) == Some(prevrot.1) && prevrot.2 == r && prevrot.3 == p.gx + step * (
                    GRAIN_SCALE as int);
                assert(candidate_score(g, gw, gh, p, wr, ws) == Some(res.1));
            }
        } else {
            let ws = choose|step: int|
                min_step <= step < max_step + 1 && #[trigger] candidate_score(
                    g,
                    gw,
                    gh,
                    p,
                    r_end - 1,
                    step,
                ) == Some(res.1) && res.2 == r_end - 1 && res.3 == p.gx + step * (
            GRAIN_SCALE as int);
            assert(candidate_score(g, gw, gh, p, r_end - 1, ws) == Some(res.1));
        }
        assert forall|r: int, step: int|
            0 <= r < r_end && min_step <= step <= max_step && (#[trigger] candidate_score(
                g,
                gw,
                gh,
                p,
                r,
                step,
            )) is Some implies res.0 by {
            if r < r_end - 1 {
                assert(prevrot.0);
            }
        }
    }
}

/// Validity of the search's outcome.  Whenever some searched
/// (rotation, step) pair is feasible at spawn height, a candidate is
/// accepted; an accepted placement is itself a searched pair, feasible at
/// spawn and still collision-free at its hard-drop landing row on the
/// snapshot; and when nothing is feasible the plan keeps the piece's own
/// pose, so it is a bare hard drop.
pub proof fn lemma_search_validity(s: GameState, p: Piece)
    requires
        state_wf(s),
        s.piece == Some(p),
    ensures
        ({
            let g = overlay(s.settled@, s.frozen@, s.gw as int, s.gh as int);
            let bw = (s.gw as int) / (GRAIN_SCALE as int);
            let best = best_upto_rot(
                g,
                s.gw as int,
                s.gh as int,
                p,
                4,
                -bw - 1,
                bw + 1,
                (false, 0int, p.rotation as int, p.gx as int),
            );
            &&& find_best_move_spec(s) == actions_spec(
                p.rotation as int,
                best.2,
                p.gx as int,
                best.3,
            )
            &&& (!best.0 ==> best.2 == p.rotation && best.3 == p.gx)
            &&& (best.0 ==> exists|r: int, step: int|
                {
                    let offs = p.shape@[r]@;
                    let tgx = p.gx + step * (GRAIN_SCALE as int);
                    &&& 0 <= r < 4
                    &&& -bw - 1 <= step <= bw + 1
                    &&& best.2 == r
                    &&& best.3 == tgx
                    &&& #[trigger] candidate_score(g, s.gw as int, s.gh as int, p, r, step) is Some
                    &&& fits_pose(g, s.gw as int, s.gh as int, offs, tgx, 0)
                    &&& fits_pose(
                        g,
                        s.gw as int,
                        s.gh as int,
                        offs,
                        tgx,
                        land_from(g, s.gw as int, s.gh as int, offs, tgx, 0),
                    )
                })
            &&& (forall|r: int, step: int|
                0 <= r < 4 && -bw - 1 <= step <= bw + 1 && (#[trigger] candidate_score(
                    g,
                    s.gw as int,
                    s.gh as int,
                    p,
                    r,
                    step,
                )) is Some ==> best.0)
        }),
{
    let g = overlay(s.settled@, s.frozen@, s.gw as int, s.gh as int);
    let gw = s.gw as int;
    let gh = s.gh as int;
    let bw = gw / (GRAIN_SCALE as int);
    let init = (false, 0int, p.rotation as int, p.gx as int);
    lemma_best_upto_rot_props(g, gw, gh, p, 4, -bw - 1, bw + 1, init);
    let best = best_upto_rot(g, gw, gh, p, 4, -bw - 1, bw + 1, init);
    if best != init && best.0 {
        let (wr, ws) = choose|r: int, step: int|
            0 <= r < 4 && -bw - 1 <= step <= bw + 1 && #[trigger] candidate_score(
                g,
                gw,
                gh,
                p,
                r,
                step,
            ) == Some(best.1) && best.2 == r && best.3 == p.gx + step * (GRAIN_SCALE as int);
        let offs = p.shape@[wr]@;
        let tgx = p.gx + ws * (GRAIN_SCALE as int);
        assert(fits_pose(g, gw, gh, offs, tgx, 0));
        lemma_land_keeps_fit(g, gw, gh, offs, tgx, 0);
        assert(candidate_score(g, gw, gh, p, wr, ws) is Some);
    }
}

/// Copy a working grid so a candidate can be explored independently.
#[verifier::loop_isolation(false)]
fn copy_grid(src: &Vec<u8>) -> (dst: Vec<u8>)
    ensures
        dst@ == src@,
{
    let n = src.len();
    let mut dst: Vec<u8> = Vec::new();
    let mut i: usize = 0;
    while i < n
        invariant
            i <= n,
            dst@ =~= src@.take(i as int),
        decreases n - i,
    {
        dst.push(src[i]);
        proof {
            assert(dst@ =~= src@.take(i + 1));
        }
        i = i + 1;
    }
    proof {
        assert(src@.take(n as int) =~= src@);
    }
    dst
}

impl Bot {
    /// Evaluate all reachable (rotation, column) placements for the
    /// current piece and return the actions (rotations, moves, hard-drop)
    /// realizing the best one; an empty plan when no piece is falling.
    #[verifier::loop_isolation(false)]
    pub fn find_best_move(state: &GameState) -> (actions: VecDeque<Action>)
        requires
            state_wf(*state),
        ensures
            actions@ == find_best_move_spec(*state),
            state.piece is None ==> actions@.len() == 0,
    {
        let piece = match &state.piece {
            Some(p) => p,
            None => {
                return VecDeque::new();
            },
        };
        let gw = state.gw;
        let gh = state.gh;
        proof {
            crate::grid::lemma_dims_bounded(gw as int, gh as int);
        }
        let ghost gwi = gw as int;
        let ghost ghi = gh as int;
        let initial_gx = piece.gx;
        let piece_color = piece.color_index;

        let base_grid = snapshot_grid(&state.settled, &state.frozen, gw, gh);
        let ghost g = base_grid@;

        let blocks_wide: i32 = (gw / GRAIN_SCALE) as i32;
        let min_step: i32 = -blocks_wide - 1;
        let max_step: i32 = blocks_wide + 1;
        let ghost init = (false, 0int, piece.rotation as int, piece.gx as int);

        let mut found = false;
        let mut best_score: i64 = 0;
        let mut best_rot: u8 = piece.rotation;
        let mut best_gx: i32 = initial_gx;

        let mut r: u8 = 0;
        while r < 4
            invariant
                r <= 4,
                best_rot < 4,
                -2 * MAX_COORD <= best_gx <= 2 * MAX_COORD,
                (found, best_score as int, best_rot as int, best_gx as int) == best_upto_rot(
                    g,
                    gwi,
                    ghi,
                    *piece,
                    r as int,
                    min_step as int,
                    max_step as int,
                    init,
                ),
            decreases 4 - r,
        {
            let offs = &piece.shape[r as usize];
            let ghost rot_base = best_upto_rot(
                g,
                gwi,
                ghi,
                *piece,
                r as int,
                min_step as int,
                max_step as int,
                init,
            );
            let mut step: i32 = min_step;
            while step <= max_step
                invariant
                    min_step <= step <= max_step + 1,
                    r < 4,
                    best_rot < 4,
                    -2 * MAX_COORD <= best_gx <= 2 * MAX_COORD,
                    (found, best_score as int, best_rot as int, best_gx as int) == best_in_rot(
                        g,
                        gwi,
                        ghi,
                        *piece,
                        r as int,
                        min_step as int,
                        step as int,
                        rot_base,
                    ),
                decreases max_step - step + 1,
            {
                let target_gx: i32 = initial_gx + step * (GRAIN_SCALE as i32);
                if target_gx < -(GRAIN_SCALE as i32 * 2) || target_gx > gw as i32 + GRAIN_SCALE
                    as i32 {
                } else {
                    if fits_at(&base_grid, gw, gh, offs, target_gx, 0) {
                        let land_y = drop_piece(&base_grid, gw, gh, offs, target_gx);
                        let mut grid = copy_grid(&base_grid);
                        let stamp_val = piece_color + 1;
                        stamp_at(&mut grid, gw, gh, offs, target_gx, land_y, stamp_val);
                        let ghost stamped = stamp_grid(
                            g,
                            gwi,
                            ghi,
                            offs@,
                            target_gx as int,
                            land_y as int,
                            stamp_val,
                        );
                        proof {
                            assert forall|i: int| 0 <= i < grid@.len() implies grid@[i]
                                == stamped[i] by {
                                lemma_coords(gwi, ghi, i);
                                assert(cell_at(grid@, gwi, i % gwi, i / gwi) == grid@[i]);
                                assert(cell_at(g, gwi, i % gwi, i / gwi) == g[i]);
                            }
                            assert(grid@ =~= stamped);
                            assert(grid_wf(grid@, gwi, ghi));
                        }
                        settle_sand(&mut grid, gw, gh);
                        let score = evaluate(&grid, gw, gh, piece_color);
                        proof {
                            assert(candidate_score(g, gwi, ghi, *piece, r as int, step as int)
                                == Some(score as int));
                        }
                        if !found || score > best_score {
                            found = true;
                            best_score = score;
                            best_rot = r;
                            best_gx = target_gx;
                        }
                    }
                }
                proof {
                    assert((found, best_score as int, best_rot as int, best_gx as int)
                        == best_in_rot(
                        g,
                        gwi,
                        ghi,
                        *piece,
                        r as int,
                        min_step as int,
                        step as int + 1,
                        rot_base,
                    ));
                }
                step = step + 1;
            }
            r = r + 1;
        }
        build_actions(piece.rotation, best_rot, initial_gx, best_gx)
    }
}

} // verus!
