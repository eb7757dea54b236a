use sandbot::actions::{build_actions, Action};
use sandbot::clears::count_spanning_clears;
use sandbot::eval::{color_reach_bonus, evaluate, same_color_proximity};
use sandbot::grid::{can_place_on_grid, snapshot_grid, stamp_piece};
use sandbot::settle::settle_sand;
use sandbot::state::{FrozenGrain, Piece};

fn one_block_piece(gx: i32, gy: i32, rotation: u8, color_index: u8) -> Piece {
    let mut shape: Vec<Vec<(i32, i32)>> = Vec::new();
    for _ in 0..4 {
        shape.push(vec![(0, 0)]);
    }
    Piece { gx, gy, rotation, color_index, shape }
}

fn counts_by_value(grid: &Vec<u8>) -> [usize; 256] {
    let mut counts = [0usize; 256];
    for &c in grid.iter() {
        counts[c as usize] += 1;
    }
    counts
}

// ---------------------------------------------------------------------------
// Action sequencer
// ---------------------------------------------------------------------------

#[test]
fn actions_only_hard_drop() {
    let a = build_actions(0, 0, 0, 0);
    assert_eq!(a.iter().cloned().collect::<Vec<_>>(), vec![Action::HardDrop]);
}

#[test]
fn actions_rotations_then_drop() {
    let a = build_actions(0, 2, 0, 0);
    assert_eq!(
        a.iter().cloned().collect::<Vec<_>>(),
        vec![Action::RotateCw, Action::RotateCw, Action::HardDrop]
    );
}

#[test]
fn actions_rotation_wraps_clockwise() {
    // 3 -> 1 is two clockwise rotations, never two counter-clockwise.
    let a = build_actions(3, 1, 0, 0);
    assert_eq!(
        a.iter().cloned().collect::<Vec<_>>(),
        vec![Action::RotateCw, Action::RotateCw, Action::HardDrop]
    );
}

#[test]
fn actions_moves_left() {
    let a = build_actions(0, 0, 16, 0);
    assert_eq!(
        a.iter().cloned().collect::<Vec<_>>(),
        vec![Action::MoveLeft, Action::MoveLeft, Action::HardDrop]
    );
}

#[test]
fn actions_moves_right_after_rotation() {
    let a = build_actions(1, 2, 0, 24);
    assert_eq!(
        a.iter().cloned().collect::<Vec<_>>(),
        vec![
            Action::RotateCw,
            Action::MoveRight,
            Action::MoveRight,
            Action::MoveRight,
            Action::HardDrop
        ]
    );
}

#[test]
fn actions_shape_general() {
    // Every plan: rotations, then same-direction moves, then exactly one
    // hard drop at the end.
    for cur_rot in 0..4u8 {
        for target_rot in 0..4u8 {
            for &(cur_gx, target_gx) in
                &[(0i32, 0i32), (0, 40), (40, 0), (-16, 16), (24, -8)]
            {
                let plan: Vec<Action> = build_actions(cur_rot, target_rot, cur_gx, target_gx)
                    .iter()
                    .cloned()
                    .collect();
                assert!(!plan.is_empty());
                assert_eq!(*plan.last().unwrap(), Action::HardDrop);
                let drops = plan.iter().filter(|a| **a == Action::HardDrop).count();
                assert_eq!(drops, 1);
                let body = &plan[..plan.len() - 1];
                let first_move = body.iter().position(|a| *a != Action::RotateCw);
                if let Some(m) = first_move {
                    let dir = body[m];
                    assert!(dir == Action::MoveLeft || dir == Action::MoveRight);
                    for a in &body[m..] {
                        assert_eq!(*a, dir);
                    }
                }
            }
        }
    }
}

// ---------------------------------------------------------------------------
// Snapshotter
// ---------------------------------------------------------------------------

#[test]
fn snapshot_overlays_frozen_and_skips_out_of_range() {
    let gw = 4usize;
    let gh = 3usize;
    let mut settled = vec![0u8; gw * gh];
    settled[2 * gw + 1] = 3; // color 2 sand
    settled[2 * gw + 2] = 1;
    let frozen = vec![
        FrozenGrain { x: 1, y: 2, color_index: 4 }, // overwrites the sand
        FrozenGrain { x: 0, y: 0, color_index: 0 },
        FrozenGrain { x: 10, y: 1, color_index: 2 }, // out of range: dropped
        FrozenGrain { x: 1, y: 7, color_index: 2 },  // out of range: dropped
    ];
    let grid = snapshot_grid(&settled, &frozen, gw, gh);
    assert_eq!(grid.len(), gw * gh);
    assert_eq!(grid[2 * gw + 1], 5); // frozen color 4 -> value 5
    assert_eq!(grid[2 * gw + 2], 1); // untouched sand
    assert_eq!(grid[0], 1); // frozen color 0 -> value 1
    let occupied = grid.iter().filter(|c| **c != 0).count();
    assert_eq!(occupied, 3);
}

// ---------------------------------------------------------------------------
// Collision and stamping
// ---------------------------------------------------------------------------

#[test]
fn can_place_respects_walls_and_grains() {
    let gw = 8usize;
    let gh = 16usize;
    let mut grid = vec![0u8; gw * gh];
    let piece = one_block_piece(0, 8, 0, 0);
    assert!(can_place_on_grid(&grid, gw, gh, &piece));
    // one grain inside the footprint blocks it
    grid[12 * gw + 3] = 2;
    assert!(!can_place_on_grid(&grid, gw, gh, &piece));
    // outside the side wall
    let off_left = one_block_piece(-1, 8, 0, 0);
    assert!(!can_place_on_grid(&grid, gw, gh, &off_left));
    // below the floor
    let too_low = one_block_piece(0, 9, 0, 0);
    assert!(!can_place_on_grid(&grid, gw, gh, &too_low));
    // above the top is fine on an empty board
    let clean = vec![0u8; gw * gh];
    let high = one_block_piece(0, -4, 0, 0);
    assert!(can_place_on_grid(&clean, gw, gh, &high));
}

#[test]
fn stamp_fills_the_footprint() {
    let gw = 8usize;
    let gh = 16usize;
    let mut grid = vec![0u8; gw * gh];
    let piece = one_block_piece(0, 8, 0, 2);
    stamp_piece(&mut grid, gw, gh, &piece, 3);
    for y in 0..gh {
        for x in 0..gw {
            let expected = if y >= 8 { 3 } else { 0 };
            assert_eq!(grid[y * gw + x], expected);
        }
    }
}

// ---------------------------------------------------------------------------
// Settle simulator
// ---------------------------------------------------------------------------

#[test]
fn settle_drops_a_grain_to_the_floor() {
    let gw = 3usize;
    let gh = 4usize;
    let mut grid = vec![0u8; gw * gh];
    grid[0 * gw + 1] = 2;
    settle_sand(&mut grid, gw, gh);
    let mut expected = vec![0u8; gw * gh];
    expected[3 * gw + 1] = 2;
    assert_eq!(grid, expected);
}

#[test]
fn settle_cascades_left_on_even_pass() {
    let gw = 3usize;
    let gh = 4usize;
    let mut grid = vec![0u8; gw * gh];
    grid[3 * gw + 1] = 1; // resting grain
    grid[2 * gw + 1] = 2; // sits on it, both diagonals free
    settle_sand(&mut grid, gw, gh);
    assert_eq!(grid[3 * gw + 0], 2); // moved down-left (pass 0 prefers left)
    assert_eq!(grid[3 * gw + 1], 1);
    assert_eq!(grid.iter().filter(|c| **c != 0).count(), 2);
}

#[test]
fn settle_conserves_grains() {
    let gw = 5usize;
    let gh = 6usize;
    let mut grid = vec![0u8; gw * gh];
    let cells = [
        (0usize, 0usize, 1u8),
        (1, 0, 2),
        (2, 1, 3),
        (4, 0, 4),
        (2, 3, 5),
        (2, 4, 6),
        (0, 2, 1),
        (3, 2, 2),
    ];
    for &(x, y, c) in &cells {
        grid[y * gw + x] = c;
    }
    let before = counts_by_value(&grid);
    settle_sand(&mut grid, gw, gh);
    let after = counts_by_value(&grid);
    assert_eq!(before[..], after[..]);
}

#[test]
fn settle_is_idempotent_once_converged() {
    let gw = 5usize;
    let gh = 6usize;
    let mut grid = vec![0u8; gw * gh];
    let cells = [(0usize, 0usize, 1u8), (1, 1, 2), (2, 0, 3), (4, 2, 4), (3, 3, 5)];
    for &(x, y, c) in &cells {
        grid[y * gw + x] = c;
    }
    settle_sand(&mut grid, gw, gh);
    let settled = grid.clone();
    settle_sand(&mut grid, gw, gh);
    assert_eq!(grid, settled);
}

// ---------------------------------------------------------------------------
// Spanning clears
// ---------------------------------------------------------------------------

#[test]
fn full_row_counts_one_clear() {
    let gw = 5usize;
    let gh = 3usize;
    let mut grid = vec![0u8; gw * gh];
    for x in 0..gw {
        grid[2 * gw + x] = 2;
    }
    assert_eq!(count_spanning_clears(&grid, gw, gh), 1);
}

#[test]
fn run_one_short_counts_nothing() {
    let gw = 5usize;
    let gh = 3usize;
    let mut grid = vec![0u8; gw * gh];
    for x in 0..gw - 1 {
        grid[2 * gw + x] = 2;
    }
    assert_eq!(count_spanning_clears(&grid, gw, gh), 0);
}

#[test]
fn diagonal_span_counts() {
    // 8-connectivity: a staircase touching both edges is one clear.
    let gw = 4usize;
    let gh = 4usize;
    let mut grid = vec![0u8; gw * gh];
    grid[0 * gw + 0] = 3;
    grid[1 * gw + 1] = 3;
    grid[2 * gw + 2] = 3;
    grid[3 * gw + 3] = 3;
    assert_eq!(count_spanning_clears(&grid, gw, gh), 1);
}

#[test]
fn two_colors_two_clears() {
    let gw = 4usize;
    let gh = 3usize;
    let mut grid = vec![0u8; gw * gh];
    for x in 0..gw {
        grid[1 * gw + x] = 1;
        grid[2 * gw + x] = 4;
    }
    assert_eq!(count_spanning_clears(&grid, gw, gh), 2);
}

#[test]
fn disconnected_same_color_rows_count_separately() {
    let gw = 3usize;
    let gh = 4usize;
    let mut grid = vec![0u8; gw * gh];
    for x in 0..gw {
        grid[0 * gw + x] = 2;
        grid[3 * gw + x] = 2;
    }
    assert_eq!(count_spanning_clears(&grid, gw, gh), 2);
}

// ---------------------------------------------------------------------------
// Evaluator
// ---------------------------------------------------------------------------

#[test]
fn evaluate_empty_board_is_zero() {
    let gw = 4usize;
    let gh = 4usize;
    let grid = vec![0u8; gw * gh];
    assert_eq!(evaluate(&grid, gw, gh, 3), 0);
}

#[test]
fn evaluate_single_grain_exact() {
    // gw = 4: max height 1, aggregate 1, bumpiness 1, danger (gh < 10).
    // score * 40 * gw = -140*4 - 6*4 - 60*4 - 4000*4 = -16824.
    let gw = 4usize;
    let gh = 4usize;
    let mut grid = vec![0u8; gw * gh];
    grid[3 * gw + 0] = 1;
    assert_eq!(evaluate(&grid, gw, gh, 3), -16824);
}

#[test]
fn danger_threshold_is_exactly_the_flat_penalty() {
    // Second difference across the threshold isolates the danger term:
    // every other term is linear in the height of a single column.
    let gw = 2usize;
    let gh = 12usize;
    let score_for = |h: usize| {
        let mut grid = vec![0u8; gw * gh];
        for i in 0..h {
            grid[(gh - 1 - i) * gw + 0] = 1;
        }
        evaluate(&grid, gw, gh, 3)
    };
    let s1 = score_for(1);
    let s2 = score_for(2); // tallest column at gh - 10: no danger yet
    let s3 = score_for(3); // one row taller: within 9 rows of the top
    assert_eq!((s3 - s2) - (s2 - s1), -4000 * gw as i64);
}

#[test]
fn proximity_counts_each_cell_once() {
    let gw = 4usize;
    let gh = 1usize;
    // a run of three: every one of the three grains has a horizontal
    // same-color neighbor, and each counts once, middle cell included
    let grid = vec![1u8, 1, 1, 0];
    assert_eq!(same_color_proximity(&grid, gw, gh, 1), 3);
    assert_eq!(same_color_proximity(&grid, gw, gh, 2), 0);
    // isolated grains of the color count nothing
    let lone = vec![1u8, 0, 1, 0];
    assert_eq!(same_color_proximity(&lone, gw, gh, 1), 0);
}

#[test]
fn reach_bonus_exact_for_full_span() {
    // One color across the whole width: span part 200*3 - 100*4 = 200,
    // both-edges 150*4 = 600, each touch 25*3 = 75.
    let gw = 4usize;
    let gh = 1usize;
    let grid = vec![1u8, 1, 1, 1];
    assert_eq!(color_reach_bonus(&grid, gw, gh), 950);
}

#[test]
fn reach_bonus_zero_for_single_column() {
    let gw = 4usize;
    let gh = 2usize;
    let mut grid = vec![0u8; gw * gh];
    grid[1 * gw + 2] = 5;
    grid[0 * gw + 2] = 5;
    assert_eq!(color_reach_bonus(&grid, gw, gh), 0);
}

#[test]
fn evaluate_rewards_horizontal_adjacency() {
    // Two grains of one color side by side versus apart, away from edges.
    let gw = 8usize;
    let gh = 12usize;
    let mut together = vec![0u8; gw * gh];
    together[(gh - 1) * gw + 3] = 2;
    together[(gh - 1) * gw + 4] = 2;
    let mut apart = vec![0u8; gw * gh];
    apart[(gh - 1) * gw + 2] = 2;
    apart[(gh - 1) * gw + 5] = 2;
    // Same heights and bumpiness contributions differ; compare directly
    // the adjacency-sensitive terms by symmetry of the rest is not given,
    // so just check the ordering the heuristic is built for.
    assert!(evaluate(&together, gw, gh, 1) > evaluate(&apart, gw, gh, 1));
}
