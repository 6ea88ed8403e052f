//! The basic data model: tiles, their animation phases, directions, commands.

use vstd::prelude::*;

verus! {

/// The value every freshly created tile starts with.  Values only ever change
/// by doubling when two equal tiles merge.
pub const BASE_VALUE: u32 = 1;

/// How long a merged-away tile stays visible before it is despawned,
/// in milliseconds.
pub const DESPAWN_DELAY_MS: u64 = 200;

/// The transient presentation state of a tile, exposed to a renderer.
/// Exactly one phase per tile at any instant:
/// - `Idle`: nothing to animate.
/// - `Moving`: the tile slid to a new cell this command.
/// - `Spawning`: the tile was just created.
/// - `MergingInto`: the tile absorbed an equal partner this command
///   (it is the surviving, double-valued merge target).
/// - `PendingRemoval(ms)`: the tile was merged away; it stays visible at the
///   cell of its merge target for `ms` more milliseconds, then disappears.
#[derive(Clone, Copy, Debug, PartialEq, Eq, Structural)]
pub enum AnimationPhase {
    Idle,
    Moving,
    Spawning,
    MergingInto,
    PendingRemoval(u64),
}

/// A movement command, each mapped to a unit vector along one axis.
/// `Up` moves tiles toward row `n - 1`, `Down` toward row `0`,
/// `Left` toward column `0`, `Right` toward column `n - 1`.
#[derive(Clone, Copy, Debug, PartialEq, Eq, Structural)]
pub enum Direction {
    Up,
    Down,
    Left,
    Right,
}

/// One externally supplied command: slide in a direction, or reset the board.
#[derive(Clone, Copy, Debug, PartialEq, Eq, Structural)]
pub enum Command {
    Move(Direction),
    Reset,
}

/// A single numbered game piece occupying one cell of the board.
#[derive(Clone, Copy, Debug, PartialEq, Eq, Structural)]
pub struct Tile {
    /// Stable identity, assigned at creation and never reused while any tile
    /// carrying it is alive.
    pub id: u64,
    /// The displayed number; always at least `BASE_VALUE`.
    pub value: u32,
    /// Column of the tile's cell, `0 <= col < n`.
    pub col: usize,
    /// Row of the tile's cell, `0 <= row < n`.
    pub row: usize,
    /// The tile's current animation phase.
    pub phase: AnimationPhase,
}

} // verus!
