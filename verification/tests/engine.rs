use sandbot::actions::Action;
use sandbot::bot::Bot;
use sandbot::grid::can_place_on_grid;
use sandbot::state::{GameState, Piece, GRAIN_SCALE};

fn one_block_piece(gx: i32, gy: i32, rotation: u8, color_index: u8) -> Piece {
    let mut shape: Vec<Vec<(i32, i32)>> = Vec::new();
    for _ in 0..4 {
        shape.push(vec![(0, 0)]);
    }
    Piece { gx, gy, rotation, color_index, shape }
}

fn empty_state(gw: usize, gh: usize, piece: Option<Piece>) -> GameState {
    GameState { piece, settled: vec![0u8; gw * gh], frozen: Vec::new(), gw, gh }
}

#[test]
fn no_piece_yields_empty_plan() {
    let state = empty_state(16, 24, None);
    let plan = Bot::find_best_move(&state);
    assert!(plan.is_empty());
    // regardless of board content
    let mut busy = empty_state(16, 24, None);
    for x in 0..16 {
        busy.settled[23 * 16 + x] = 3;
    }
    assert!(Bot::find_best_move(&busy).is_empty());
}

#[test]
fn search_is_deterministic() {
    let make = || {
        let mut s = empty_state(16, 24, Some(one_block_piece(0, 0, 0, 2)));
        s.settled[23 * 16 + 3] = 3;
        s.settled[22 * 16 + 3] = 2;
        s
    };
    let a: Vec<Action> = Bot::find_best_move(&make()).iter().cloned().collect();
    let b: Vec<Action> = Bot::find_best_move(&make()).iter().cloned().collect();
    assert_eq!(a, b);
}

#[test]
fn flat_board_single_piece_finds_valid_placement() {
    let gw = 16usize;
    let gh = 24usize;
    let state = empty_state(gw, gh, Some(one_block_piece(0, 0, 0, 1)));

    // every rotation is feasible over the whole in-board column range
    for r in 0..4u8 {
        for tgx in [0i32, GRAIN_SCALE as i32] {
            let probe = one_block_piece(tgx, 0, r, 1);
            assert!(can_place_on_grid(&state.settled, gw, gh, &probe));
        }
    }

    let plan: Vec<Action> = Bot::find_best_move(&state).iter().cloned().collect();
    assert!(!plan.is_empty());
    assert_eq!(*plan.last().unwrap(), Action::HardDrop);
    assert_eq!(plan.iter().filter(|a| **a == Action::HardDrop).count(), 1);

    // decode the chosen rotation and target column
    let rotations = plan.iter().take_while(|a| **a == Action::RotateCw).count();
    assert_eq!(rotations, 0); // ties keep the lowest rotation index
    let lefts = plan.iter().filter(|a| **a == Action::MoveLeft).count() as i32;
    let rights = plan.iter().filter(|a| **a == Action::MoveRight).count() as i32;
    assert!(lefts == 0 || rights == 0);
    let target_gx = 0 + (rights - lefts) * GRAIN_SCALE as i32;

    // the chosen column is one of the placements that actually fit
    assert!(target_gx == 0 || target_gx == GRAIN_SCALE as i32);
    let chosen = one_block_piece(target_gx, 0, rotations as u8, 1);
    assert!(can_place_on_grid(&state.settled, gw, gh, &chosen));
}

#[test]
fn infeasible_spawn_is_skipped() {
    // A fully blocked board: no candidate is feasible anywhere, so the
    // plan falls back to the piece's own pose: a bare hard drop.
    let gw = 16usize;
    let gh = 24usize;
    let mut state = empty_state(gw, gh, Some(one_block_piece(0, 0, 0, 1)));
    for i in 0..gw * gh {
        state.settled[i] = 1;
    }
    let plan: Vec<Action> = Bot::find_best_move(&state).iter().cloned().collect();
    assert_eq!(plan, vec![Action::HardDrop]);
}

#[test]
fn bot_prefers_clearing_placement() {
    // A bottom row of color 1 with an 8-grain gap: dropping the matching
    // 8x8 block into the gap completes spanning rows; the bot must not
    // pick a far-away column instead.
    let gw = 24usize;
    let gh = 48usize;
    let mut state = empty_state(gw, gh, Some(one_block_piece(0, 0, 0, 0)));
    for y in gh - 8..gh {
        for x in 0..gw {
            if !(8..16).contains(&x) {
                state.settled[y * gw + x] = 1; // color value 1 = color index 0
            }
        }
    }
    let plan: Vec<Action> = Bot::find_best_move(&state).iter().cloned().collect();
    let lefts = plan.iter().filter(|a| **a == Action::MoveLeft).count() as i32;
    let rights = plan.iter().filter(|a| **a == Action::MoveRight).count() as i32;
    let target_gx = 0 + (rights - lefts) * GRAIN_SCALE as i32;
    assert_eq!(target_gx, 8);
}
