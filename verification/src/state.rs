//! The data the search reads from the live game: grid dimensions, the
//! settled sand, the in-flight frozen grains, and the current piece.

use vstd::prelude::*;

verus! {

/// Each visual block of a piece occupies a `GRAIN_SCALE x GRAIN_SCALE`
/// square of grains; lateral moves shift a piece by one block.
pub const GRAIN_SCALE: usize = 8;

/// Upper bound on the number of grid cells, keeping index arithmetic and
/// scaled scores comfortably inside machine integer ranges.
pub const MAX_CELLS: usize = 1000000;

/// Bound on a shape's relative grain offsets.
pub const MAX_OFFSET: i32 = 1024;

/// Bound on piece grain coordinates.
pub const MAX_COORD: i32 = 1048576;

/// A grain that has detached from a piece but has not yet been merged into
/// the settled board representation.
pub struct FrozenGrain {
    pub x: usize,
    pub y: usize,
    pub color_index: u8,
}

/// The currently falling piece.
///
/// The live game derives the occupied grain squares from the piece kind;
/// here that geometry is carried as data: `shape[r]` lists, for rotation
/// state `r`, the grain origin of every block relative to `(gx, gy)`.
/// `color_index` is the palette color the piece will stamp (`0..=5`).
pub struct Piece {
    pub gx: i32,
    pub gy: i32,
    pub rotation: u8,
    pub color_index: u8,
    pub shape: Vec<Vec<(i32, i32)>>,
}

/// A rotation's block offsets: non-empty and bounded.
pub open spec fn offsets_wf(offs: Seq<(i32, i32)>) -> bool {
    &&& 1 <= offs.len() <= 64
    &&& forall|k: int|
        0 <= k < offs.len() ==> -MAX_OFFSET <= (#[trigger] offs[k]).0 <= MAX_OFFSET
            && -MAX_OFFSET <= offs[k].1 <= MAX_OFFSET
}

pub open spec fn piece_wf(p: Piece) -> bool {
    &&& p.rotation < 4
    &&& p.color_index < 6
    &&& p.shape@.len() == 4
    &&& forall|r: int| 0 <= r < 4 ==> offsets_wf((#[trigger] p.shape@[r])@)
    &&& -MAX_COORD <= p.gx <= MAX_COORD
    &&& -MAX_COORD <= p.gy <= MAX_COORD
}

/// Read-only snapshot of the game state handed to the search.
///
/// `settled` is the flat settled-sand board, row-major: `0` for an empty
/// cell, `c + 1` for sand of color `c`.  Frozen grains are kept separate
/// and overlaid by the snapshotter.
pub struct GameState {
    pub piece: Option<Piece>,
    pub settled: Vec<u8>,
    pub frozen: Vec<FrozenGrain>,
    pub gw: usize,
    pub gh: usize,
}

pub open spec fn state_wf(s: GameState) -> bool {
    &&& 1 <= s.gw
    &&& 1 <= s.gh
    &&& s.gw * s.gh <= MAX_CELLS
    &&& s.settled@.len() == s.gw * s.gh
    &&& forall|i: int| 0 <= i < s.settled@.len() ==> #[trigger] s.settled@[i] <= 6
    &&& forall|i: int| 0 <= i < s.frozen@.len() ==> (#[trigger] s.frozen@[i]).color_index < 6
    &&& (s.piece matches Some(p) ==> piece_wf(p))
}

} // verus!
