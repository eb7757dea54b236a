//! Materializing a chosen placement as primitive control actions.

use std::collections::VecDeque;

use vstd::prelude::*;

use crate::state::{GRAIN_SCALE, MAX_COORD};

verus! {

/// One primitive command for the external input layer.
#[derive(Clone, Copy, Debug, PartialEq, Eq, Structural)]
pub enum Action {
    RotateCw,
    MoveLeft,
    MoveRight,
    HardDrop,
}

/// Clockwise rotations needed to advance `cur` to `target` (both in `0..4`).
pub open spec fn rot_steps(cur: int, target: int) -> int {
    if target >= cur {
        target - cur
    } else {
        target + 4 - cur
    }
}

/// Number of whole-block lateral moves between the two horizontal positions.
pub open spec fn lateral_steps(cur_gx: int, target_gx: int) -> int {
    if target_gx >= cur_gx {
        (target_gx - cur_gx) / (GRAIN_SCALE as int)
    } else {
        (cur_gx - target_gx) / (GRAIN_SCALE as int)
    }
}

/// Direction of the lateral moves.
pub open spec fn lateral_action(cur_gx: int, target_gx: int) -> Action {
    if target_gx >= cur_gx {
        Action::MoveRight
    } else {
        Action::MoveLeft
    }
}

/// The exact plan for a placement: clockwise rotations, then same-direction
/// lateral moves, then a single terminating hard drop.
pub open spec fn actions_spec(cur_rot: int, target_rot: int, cur_gx: int, target_gx: int) -> Seq<
    Action,
> {
    Seq::new(rot_steps(cur_rot, target_rot) as nat, |i: int| Action::RotateCw) + Seq::new(
        lateral_steps(cur_gx, target_gx) as nat,
        |i: int| lateral_action(cur_gx, target_gx),
    ) + seq![Action::HardDrop]
}

/// Build the action queue: rotations, then lateral moves, then hard-drop.
/// Rotation always advances clockwise, even when the other way were shorter.
#[verifier::loop_isolation(false)]
pub fn build_actions(cur_rot: u8, target_rot: u8, cur_gx: i32, target_gx: i32) -> (actions: VecDeque<
    Action,
>)
    requires
        cur_rot < 4,
        target_rot < 4,
        -2 * MAX_COORD <= cur_gx <= 2 * MAX_COORD,
        -2 * MAX_COORD <= target_gx <= 2 * MAX_COORD,
    ensures
        actions@ == actions_spec(cur_rot as int, target_rot as int, cur_gx as int, target_gx as int),
{
    let ghost n_rot = rot_steps(cur_rot as int, target_rot as int);
    let ghost n_lat = lateral_steps(cur_gx as int, target_gx as int);
    let ghost dir = lateral_action(cur_gx as int, target_gx as int);
    let mut actions: VecDeque<Action> = VecDeque::new();

    let mut r: u8 = cur_rot;
    while r != target_rot
        invariant
            r < 4,
            actions@.len() == n_rot - rot_steps(r as int, target_rot as int),
            forall|i: int| 0 <= i < actions@.len() ==> actions@[i] == Action::RotateCw,
        decreases rot_steps(r as int, target_rot as int),
    {
        actions.push_back(Action::RotateCw);
        r = (r + 1) % 4;
    }
    assert(actions@ =~= Seq::new(n_rot as nat, |i: int| Action::RotateCw));
    let ghost rot_part = actions@;

    let steps: usize = if target_gx >= cur_gx {
        ((target_gx - cur_gx) as usize) / GRAIN_SCALE
    } else {
        ((cur_gx - target_gx) as usize) / GRAIN_SCALE
    };
    let lateral: Action = if target_gx >= cur_gx {
        Action::MoveRight
    } else {
        Action::MoveLeft
    };
    assert(steps == n_lat);
    assert(lateral == dir);
    let mut i: usize = 0;
    while i < steps
        invariant
            i <= steps,
            actions@.len() == rot_part.len() + i,
            forall|j: int| 0 <= j < rot_part.len() ==> actions@[j] == rot_part[j],
            forall|j: int| rot_part.len() <= j < actions@.len() ==> actions@[j] == dir,
        decreases steps - i,
    {
        actions.push_back(lateral);
        i = i + 1;
    }
    actions.push_back(Action::HardDrop);
    proof {
        assert(actions@ =~= actions_spec(
            cur_rot as int,
            target_rot as int,
            cur_gx as int,
            target_gx as int,
        ));
    }
    actions
}

/// Shape of every emitted plan: it ends in exactly one hard drop, preceded
/// by clockwise rotations and then lateral moves that all share one
/// direction.
pub proof fn lemma_action_sequence_shape(cur_rot: int, target_rot: int, cur_gx: int, target_gx: int)
    requires
        0 <= cur_rot < 4,
        0 <= target_rot < 4,
    ensures
        ({
            let s = actions_spec(cur_rot, target_rot, cur_gx, target_gx);
            let n_rot = rot_steps(cur_rot, target_rot);
            let n_lat = lateral_steps(cur_gx, target_gx);
            &&& 0 <= n_rot
            &&& 0 <= n_lat
            &&& s.len() == n_rot + n_lat + 1
            &&& s.last() == Action::HardDrop
            &&& forall|i: int| 0 <= i < n_rot ==> s[i] == Action::RotateCw
            &&& forall|i: int| n_rot <= i < n_rot + n_lat ==> s[i] == lateral_action(cur_gx, target_gx)
            &&& forall|i: int| 0 <= i < s.len() - 1 ==> s[i] != Action::HardDrop
        }),
{
    let s = actions_spec(cur_rot, target_rot, cur_gx, target_gx);
    let n_lat = lateral_steps(cur_gx, target_gx);
    if target_gx >= cur_gx {
        vstd::arithmetic::div_mod::lemma_div_is_ordered(0, target_gx - cur_gx, GRAIN_SCALE as int);
    } else {
        vstd::arithmetic::div_mod::lemma_div_is_ordered(0, cur_gx - target_gx, GRAIN_SCALE as int);
    }
    assert(0 <= n_lat);
}

} // verus!
