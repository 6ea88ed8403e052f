//! The mathematical model of the engine.
//!
//! `Model` is the abstract state: the board as a sequence of optional tiles,
//! the retiring tiles awaiting despawn, the next identity, and the generator
//! state.  Every engine operation is modelled by a spec function from the
//! previous state to the next, so the whole engine is a mathematical function
//! of its seed and its command sequence.

use vstd::prelude::*;
use crate::tile::{Tile, AnimationPhase, Direction, Command, BASE_VALUE, DESPAWN_DELAY_MS};
use crate::geom::{MAX_SIDE, line_idx, line_col, line_row, line_of, off_of, col_of, row_of};
use crate::geom::{lemma_line_geom, lemma_idx_geom, lemma_cell_decomp};
use crate::line::{MergeSlot, merge_slots, tiles_sum, slots_sum, from_tile, slot_sourced};
use crate::line::{tiles_have_id, tiles_distinct_ids, slots_pair_distinct, slots_distinct_ids};
use crate::line::{slot_ids_from, lemma_merge_slots_structure, lemma_merge_slots_ids};
use crate::line::{lemma_tiles_sum_push, lemma_slots_sum_push};
use crate::rng::{wy_next, wy_out};
use crate::sums::{line_sum_upto, line_sum, lines_acc, grid_sum, lemma_grid_sum_lines};

verus! {

/// The abstract state of the engine.
#[verifier::ext_equal]
pub struct Model {
    /// Board side length.
    pub n: int,
    /// The board: index `p` holds the tile in column `p % n`, row `p / n`.
    pub grid: Seq<Option<Tile>>,
    /// Merged-away tiles awaiting despawn, oldest first; their cells point at
    /// their merge targets, their phases are all `PendingRemoval`.
    pub retiring: Seq<Tile>,
    /// The identity the next created tile receives.
    pub next_id: u64,
    /// The random-number generator state.
    pub rng: u64,
}

/// The id held by a cell, if any.
pub open spec fn opt_id(o: Option<Tile>) -> Option<u64> {
    match o {
        Some(t) => Some(t.id),
        None => None,
    }
}

/// The tile of cell `p` agrees with the cell it sits in and is a live tile:
/// positive value, a phase other than `PendingRemoval`, an assigned id.
pub open spec fn cell_ok(m: Model, p: int) -> bool {
    match m.grid[p] {
        Some(t) => {
            &&& t.col == col_of(m.n, p)
            &&& t.row == row_of(m.n, p)
            &&& 1 <= t.value
            &&& !(t.phase is PendingRemoval)
            &&& t.id < m.next_id
        },
        None => true,
    }
}

/// No two occupied cells share a tile id.
pub open spec fn grid_distinct_ids(g: Seq<Option<Tile>>) -> bool {
    forall|p1: int, p2: int|
        0 <= p1 < p2 < g.len() && #[trigger] g[p1] is Some && #[trigger] g[p2] is Some
            ==> g[p1]->Some_0.id != g[p2]->Some_0.id
}

/// A retiring tile is well-formed: in `PendingRemoval`, on the board area,
/// positive value, an assigned id.
pub open spec fn retiring_ok(m: Model, i: int) -> bool {
    let t = m.retiring[i];
    &&& t.phase is PendingRemoval
    &&& t.col < m.n
    &&& t.row < m.n
    &&& 1 <= t.value
    &&& t.id < m.next_id
}

/// Well-formedness of the whole state.  This carries the bounds invariant
/// (every tile sits at `0 <= col < n`, `0 <= row < n`) and the identity
/// invariant (every live id appears in exactly one cell, and never also as a
/// retiring id).
pub open spec fn wf(m: Model) -> bool {
    &&& 2 <= m.n <= MAX_SIDE
    &&& m.grid.len() == m.n * m.n
    &&& forall|p: int| 0 <= p < m.grid.len() ==> #[trigger] cell_ok(m, p)
    &&& grid_distinct_ids(m.grid)
    &&& forall|i: int| 0 <= i < m.retiring.len() ==> #[trigger] retiring_ok(m, i)
    &&& forall|i1: int, i2: int|
        0 <= i1 < i2 < m.retiring.len() ==> #[trigger] m.retiring[i1].id != #[trigger] m.retiring[i2].id
    &&& forall|p: int, i: int|
        0 <= p < m.grid.len() && 0 <= i < m.retiring.len() && #[trigger] m.grid[p] is Some
            ==> m.grid[p]->Some_0.id != #[trigger] m.retiring[i].id
}

// ---------------------------------------------------------------------------
// Sliding and merging
// ---------------------------------------------------------------------------

/// The tiles of line `k` at offsets below `m`, ordered from the wall outward,
/// gaps skipped.
pub open spec fn line_tiles_upto(
    g: Seq<Option<Tile>>,
    n: int,
    dir: Direction,
    k: int,
    m: int,
) -> Seq<Tile>
    decreases m,
{
    if m <= 0 {
        Seq::empty()
    } else {
        line_tiles_upto(g, n, dir, k, m - 1) + match g[line_idx(n, dir, k, m - 1)] {
            Some(t) => seq![t],
            None => Seq::empty(),
        }
    }
}

/// All tiles of line `k`, ordered from the wall outward.
pub open spec fn line_tiles(g: Seq<Option<Tile>>, n: int, dir: Direction, k: int) -> Seq<Tile> {
    line_tiles_upto(g, n, dir, k, n)
}

/// The tile written to cell `p` from merge slot `slot`: the surviving tile,
/// moved to `p`, tagged `MergingInto` when it absorbed a merge, `Moving` when
/// it changed cells, and otherwise left in its previous phase.
pub open spec fn finalize(slot: MergeSlot, n: int, p: int) -> Tile {
    Tile {
        id: slot.out.id,
        value: slot.out.value,
        col: col_of(n, p) as usize,
        row: row_of(n, p) as usize,
        phase: if slot.absorbed is Some {
            AnimationPhase::MergingInto
        } else if slot.out.col != col_of(n, p) || slot.out.row != row_of(n, p) {
            AnimationPhase::Moving
        } else {
            slot.out.phase
        },
    }
}

/// The content of cell `p` after a move in `dir`: the cell at offset `m` from
/// the wall of line `k` holds the `m`-th surviving tile of the merged line,
/// and is empty when the merged line is shorter than that.
pub open spec fn resolved_cell(g: Seq<Option<Tile>>, n: int, dir: Direction, p: int) -> Option<
    Tile,
> {
    let k = line_of(n, dir, p);
    let m = off_of(n, dir, p);
    let ps = merge_slots(line_tiles(g, n, dir, k));
    if m < ps.len() {
        Some(finalize(ps[m], n, p))
    } else {
        None
    }
}

/// The whole board after a move in `dir`.
pub open spec fn resolved_grid(g: Seq<Option<Tile>>, n: int, dir: Direction) -> Seq<Option<Tile>> {
    Seq::new(g.len(), |p: int| resolved_cell(g, n, dir, p))
}

/// An absorbed tile as it enters the retiring list: moved to the cell of its
/// merge target (offset `j` from the wall of line `k`), counting down the
/// despawn delay.
pub open spec fn retired_tile(a: Tile, n: int, dir: Direction, k: int, j: int) -> Tile {
    Tile {
        id: a.id,
        value: a.value,
        col: line_col(n, dir, k, j) as usize,
        row: line_row(n, dir, k, j) as usize,
        phase: AnimationPhase::PendingRemoval(DESPAWN_DELAY_MS),
    }
}

/// The retired tiles of the slots `ps`, whose first slot sits at offset `j0`
/// of line `k`; in slot order.
pub open spec fn slots_retired(
    ps: Seq<MergeSlot>,
    n: int,
    dir: Direction,
    k: int,
    j0: int,
) -> Seq<Tile>
    decreases ps.len(),
{
    if ps.len() == 0 {
        Seq::empty()
    } else {
        (match ps[0].absorbed {
            Some(a) => seq![retired_tile(a, n, dir, k, j0)],
            None => Seq::empty(),
        }) + slots_retired(ps.skip(1), n, dir, k, j0 + 1)
    }
}

/// The tiles retired by merging line `k`.
pub open spec fn line_retired(g: Seq<Option<Tile>>, n: int, dir: Direction, k: int) -> Seq<Tile> {
    slots_retired(merge_slots(line_tiles(g, n, dir, k)), n, dir, k, 0)
}

/// The tiles retired by the lines below `k`, in line order.
pub open spec fn retired_upto(g: Seq<Option<Tile>>, n: int, dir: Direction, k: int) -> Seq<Tile>
    decreases k,
{
    if k <= 0 {
        Seq::empty()
    } else {
        retired_upto(g, n, dir, k - 1) + line_retired(g, n, dir, k - 1)
    }
}

/// All tiles retired by a move in `dir`.
pub open spec fn all_retired(g: Seq<Option<Tile>>, n: int, dir: Direction) -> Seq<Tile> {
    retired_upto(g, n, dir, n)
}

/// The state after slide-and-merge in `dir` (no spawn yet).
pub open spec fn spec_resolve(m: Model, dir: Direction) -> Model {
    Model {
        n: m.n,
        grid: resolved_grid(m.grid, m.n, dir),
        retiring: m.retiring + all_retired(m.grid, m.n, dir),
        next_id: m.next_id,
        rng: m.rng,
    }
}

/// Whether a move in `dir` changes the board: some cell holds a different
/// tile id afterwards.
pub open spec fn spec_changed(m: Model, dir: Direction) -> bool {
    exists|p: int|
        0 <= p < m.grid.len() && opt_id(m.grid[p]) != opt_id(
            #[trigger] resolved_cell(m.grid, m.n, dir, p),
        )
}

// ---------------------------------------------------------------------------
// Spawning, resetting, despawning
// ---------------------------------------------------------------------------

/// The flat indices of the empty cells below index `p`, ascending.
pub open spec fn empties_upto(g: Seq<Option<Tile>>, p: int) -> Seq<int>
    decreases p,
{
    if p <= 0 {
        Seq::empty()
    } else {
        empties_upto(g, p - 1) + if g[p - 1] is None {
            seq![p - 1]
        } else {
            Seq::empty()
        }
    }
}

/// The flat indices of all empty cells, ascending.
pub open spec fn empties(g: Seq<Option<Tile>>) -> Seq<int> {
    empties_upto(g, g.len() as int)
}

/// A freshly created tile: base value, spawning, at cell `p`.
pub open spec fn spec_new_tile(id: u64, n: int, p: int) -> Tile {
    Tile {
        id,
        value: BASE_VALUE,
        col: col_of(n, p) as usize,
        row: row_of(n, p) as usize,
        phase: AnimationPhase::Spawning,
    }
}

/// Whether a spawn happens: the move changed the board, an empty cell exists,
/// and an identity can still be assigned (the last never fails before
/// `u64::MAX` creations since the last reset).
pub open spec fn spawn_happens(m: Model, changed: bool) -> bool {
    changed && empties(m.grid).len() > 0 && m.next_id < u64::MAX
}

/// The cell a spawn picks: uniformly random among the empty cells.
pub open spec fn spawn_cell(m: Model) -> int {
    empties(m.grid)[(wy_out(m.rng) as int) % (empties(m.grid).len() as int)]
}

/// The state after the spawn step: one new base tile in a random empty cell
/// if the move changed the board, the unchanged state otherwise.
pub open spec fn spec_spawn_if(m: Model, changed: bool) -> Model {
    if spawn_happens(m, changed) {
        let p = spawn_cell(m);
        Model {
            n: m.n,
            grid: m.grid.update(p, Some(spec_new_tile(m.next_id, m.n, p))),
            retiring: m.retiring,
            next_id: (m.next_id + 1) as u64,
            rng: wy_next(m.rng),
        }
    } else {
        m
    }
}

/// The cell of the first seed tile of a reset.
pub open spec fn reset_first(m: Model) -> int {
    (wy_out(m.rng) as int) % (m.n * m.n)
}

/// The cell of the second seed tile of a reset: drawn from the remaining
/// cells, so always distinct from the first.
pub open spec fn reset_second(m: Model) -> int {
    let q = (wy_out(wy_next(m.rng)) as int) % (m.n * m.n - 1);
    if q >= reset_first(m) {
        q + 1
    } else {
        q
    }
}

/// The state after a reset: every tile destroyed at once, identities
/// restarted, and two base tiles seeded at two distinct random cells.
pub open spec fn spec_reset(m: Model) -> Model {
    let p1 = reset_first(m);
    let p2 = reset_second(m);
    Model {
        n: m.n,
        grid: Seq::new(
            (m.n * m.n) as nat,
            |p: int|
                if p == p1 {
                    Some(spec_new_tile(0, m.n, p1))
                } else if p == p2 {
                    Some(spec_new_tile(1, m.n, p2))
                } else {
                    None
                },
        ),
        retiring: Seq::empty(),
        next_id: 2,
        rng: wy_next(wy_next(m.rng)),
    }
}

/// The retiring list after `e` milliseconds: countdowns decreased, tiles
/// whose countdown ran out removed.
pub open spec fn advanced_retiring(s: Seq<Tile>, e: u64) -> Seq<Tile>
    decreases s.len(),
{
    if s.len() == 0 {
        Seq::empty()
    } else {
        (match s[0].phase {
            AnimationPhase::PendingRemoval(rem) => if rem <= e {
                Seq::empty()
            } else {
                seq![
                    Tile {
                        id: s[0].id,
                        value: s[0].value,
                        col: s[0].col,
                        row: s[0].row,
                        phase: AnimationPhase::PendingRemoval((rem - e) as u64),
                    },
                ]
            },
            _ => seq![s[0]],
        }) + advanced_retiring(s.skip(1), e)
    }
}

/// The state after the despawn scheduler ran for `e` milliseconds.
pub open spec fn spec_advance(m: Model, e: u64) -> Model {
    Model {
        n: m.n,
        grid: m.grid,
        retiring: advanced_retiring(m.retiring, e),
        next_id: m.next_id,
        rng: m.rng,
    }
}

// ---------------------------------------------------------------------------
// Phase exposure
// ---------------------------------------------------------------------------

/// `t` after a renderer acknowledged tile `id`: the transient phases
/// `Moving`, `Spawning` and `MergingInto` return to `Idle`.
pub open spec fn cleared_tile(t: Tile, id: u64) -> Tile {
    if t.id == id && (t.phase is Moving || t.phase is Spawning || t.phase is MergingInto) {
        Tile { id: t.id, value: t.value, col: t.col, row: t.row, phase: AnimationPhase::Idle }
    } else {
        t
    }
}

/// Some occupied cell holds tile `id`.
pub open spec fn grid_has_id(g: Seq<Option<Tile>>, id: u64) -> bool {
    exists|p: int| 0 <= p < g.len() && opt_id(#[trigger] g[p]) == Some(id)
}

/// The state after a renderer acknowledged tile `id`.
pub open spec fn spec_clear_phase(m: Model, id: u64) -> Model {
    Model {
        n: m.n,
        grid: Seq::new(
            m.grid.len(),
            |p: int|
                match m.grid[p] {
                    Some(t) => Some(cleared_tile(t, id)),
                    None => None,
                },
        ),
        retiring: m.retiring,
        next_id: m.next_id,
        rng: m.rng,
    }
}

/// The live tiles on cells below `p`, in cell order.
pub open spec fn live_tiles_upto(g: Seq<Option<Tile>>, p: int) -> Seq<Tile>
    decreases p,
{
    if p <= 0 {
        Seq::empty()
    } else {
        live_tiles_upto(g, p - 1) + match g[p - 1] {
            Some(t) => seq![t],
            None => Seq::empty(),
        }
    }
}

/// All live tiles, in cell order.
pub open spec fn live_tiles(g: Seq<Option<Tile>>) -> Seq<Tile> {
    live_tiles_upto(g, g.len() as int)
}

/// The live tiles with a phase to animate, in cell order.
pub open spec fn anim_tiles_upto(g: Seq<Option<Tile>>, p: int) -> Seq<Tile>
    decreases p,
{
    if p <= 0 {
        Seq::empty()
    } else {
        anim_tiles_upto(g, p - 1) + match g[p - 1] {
            Some(t) => if t.phase is Idle {
                Seq::empty()
            } else {
                seq![t]
            },
            None => Seq::empty(),
        }
    }
}

/// Everything a renderer consumes: every tile whose phase is not `Idle`,
/// with its id, value, phase, and destination cell.
pub open spec fn spec_animations(m: Model) -> Seq<Tile> {
    anim_tiles_upto(m.grid, m.grid.len() as int) + m.retiring
}

// ---------------------------------------------------------------------------
// Board setup
// ---------------------------------------------------------------------------

/// Whether a tile of value `v` can be placed on cell `(col, row)`.
pub open spec fn can_place(m: Model, col: int, row: int, v: u32) -> bool {
    &&& 0 <= col < m.n
    &&& 0 <= row < m.n
    &&& 1 <= v
    &&& m.grid[row * m.n + col] is None
    &&& m.next_id < u64::MAX
}

/// The state after placing a tile of value `v` on the empty cell
/// `(col, row)`; the unchanged state when the placement is refused.
pub open spec fn spec_place(m: Model, col: int, row: int, v: u32) -> Model {
    if can_place(m, col, row, v) {
        let p = row * m.n + col;
        Model {
            n: m.n,
            grid: m.grid.update(
                p,
                Some(
                    Tile {
                        id: m.next_id,
                        value: v,
                        col: col as usize,
                        row: row as usize,
                        phase: AnimationPhase::Idle,
                    },
                ),
            ),
            retiring: m.retiring,
            next_id: (m.next_id + 1) as u64,
            rng: m.rng,
        }
    } else {
        m
    }
}

/// The state of a freshly constructed engine: an empty board.
pub open spec fn spec_new(n: int, seed: u64) -> Model {
    Model {
        n: n,
        grid: Seq::new((n * n) as nat, |p: int| None),
        retiring: Seq::empty(),
        next_id: 0,
        rng: seed,
    }
}

// ---------------------------------------------------------------------------
// Commands, ticks, runs
// ---------------------------------------------------------------------------

/// The state after one fully resolved command.
pub open spec fn spec_command(m: Model, cmd: Command) -> Model {
    match cmd {
        Command::Move(dir) => spec_spawn_if(spec_resolve(m, dir), spec_changed(m, dir)),
        Command::Reset => spec_reset(m),
    }
}

/// Whether the commands of a tick contain a reset.
pub open spec fn has_reset(cmds: Seq<Command>) -> bool {
    exists|i: int| 0 <= i < cmds.len() && #[trigger] cmds[i] is Reset
}

/// The state after a sequence of commands, each fully resolved before the
/// next.
pub open spec fn spec_run(m: Model, cmds: Seq<Command>) -> Model
    decreases cmds.len(),
{
    if cmds.len() == 0 {
        m
    } else {
        spec_run(spec_command(m, cmds[0]), cmds.skip(1))
    }
}

/// Running one more command continues the run.
pub proof fn lemma_spec_run_snoc(m: Model, s: Seq<Command>, c: Command)
    ensures
        spec_run(m, s.push(c)) == spec_command(spec_run(m, s), c),
    decreases s.len(),
{
    if s.len() == 0 {
        assert(s.push(c) =~= seq![c]);
        assert(seq![c].skip(1) =~= Seq::<Command>::empty());
        assert(spec_run(m, s.push(c)) == spec_run(spec_command(m, c), seq![c].skip(1)));
    } else {
        assert(s.push(c).skip(1) =~= s.skip(1).push(c));
        assert(s.push(c)[0] == s[0]);
        lemma_spec_run_snoc(spec_command(m, s[0]), s.skip(1), c);
    }
}

/// One tick: a reset supersedes any queued move; otherwise the queued moves
/// resolve in arrival order; then the despawn scheduler advances by the
/// tick's elapsed time.
pub open spec fn spec_tick(m: Model, cmds: Seq<Command>, e: u64) -> Model {
    spec_advance(
        if has_reset(cmds) {
            spec_reset(m)
        } else {
            spec_run(m, cmds)
        },
        e,
    )
}

// ---------------------------------------------------------------------------
// Lemmas: collecting a line
// ---------------------------------------------------------------------------

/// Shape and provenance of a collected line: at most one tile per cell, each
/// tile read from an occupied cell of the line.
pub proof fn lemma_line_tiles_upto(g: Seq<Option<Tile>>, n: int, dir: Direction, k: int, m: int)
    requires
        1 <= n,
        0 <= k < n,
        0 <= m <= n,
    ensures
        line_tiles_upto(g, n, dir, k, m).len() <= m,
        forall|i: int|
            0 <= i < line_tiles_upto(g, n, dir, k, m).len() ==> exists|mm: int|
                0 <= mm < m && g[line_idx(n, dir, k, mm)] == Some(
                    #[trigger] line_tiles_upto(g, n, dir, k, m)[i],
                ),
    decreases m,
{
    if m > 0 {
        lemma_line_tiles_upto(g, n, dir, k, m - 1);
        let s0 = line_tiles_upto(g, n, dir, k, m - 1);
        let s = line_tiles_upto(g, n, dir, k, m);
        assert forall|i: int| 0 <= i < s.len() implies exists|mm: int|
            0 <= mm < m && g[line_idx(n, dir, k, mm)] == Some(#[trigger] s[i]) by {
            if i < s0.len() {
                assert(s[i] == s0[i]);
                let mm = choose|mm: int|
                    0 <= mm < m - 1 && g[line_idx(n, dir, k, mm)] == Some(s0[i]);
                assert(0 <= mm < m && g[line_idx(n, dir, k, mm)] == Some(s[i]));
            } else {
                assert(g[line_idx(n, dir, k, m - 1)] == Some(s[i]));
            }
        }
    }
}

/// A collected line carries pairwise distinct ids whenever the grid does.
pub proof fn lemma_line_tiles_distinct(g: Seq<Option<Tile>>, n: int, dir: Direction, k: int, m: int)
    requires
        1 <= n,
        0 <= k < n,
        0 <= m <= n,
        g.len() == n * n,
        grid_distinct_ids(g),
    ensures
        tiles_distinct_ids(line_tiles_upto(g, n, dir, k, m)),
    decreases m,
{
    if m > 0 {
        lemma_line_tiles_distinct(g, n, dir, k, m - 1);
        lemma_line_tiles_upto(g, n, dir, k, m - 1);
        let s0 = line_tiles_upto(g, n, dir, k, m - 1);
        let s = line_tiles_upto(g, n, dir, k, m);
        match g[line_idx(n, dir, k, m - 1)] {
            Some(t) => {
                lemma_line_geom(n, dir, k, m - 1);
                let pt = line_idx(n, dir, k, m - 1);
                assert forall|i: int| 0 <= i < s0.len() implies s0[i].id != t.id by {
                    let mm = choose|mm: int|
                        0 <= mm < m - 1 && g[line_idx(n, dir, k, mm)] == Some(s0[i]);
                    lemma_line_geom(n, dir, k, mm);
                    let pi = line_idx(n, dir, k, mm);
                    assert(off_of(n, dir, pi) == mm && off_of(n, dir, pt) == m - 1);
                    assert(pi != pt);
                    assert(g[pi] is Some && g[pt] is Some);
                    if pi < pt {
                        assert(g[pi]->Some_0.id != g[pt]->Some_0.id);
                    } else {
                        assert(g[pt]->Some_0.id != g[pi]->Some_0.id);
                    }
                }
                assert forall|i1: int, i2: int| 0 <= i1 < i2 < s.len() implies s[i1].id
                    != s[i2].id by {
                    if i2 < s0.len() {
                        assert(s[i1] == s0[i1] && s[i2] == s0[i2]);
                    } else {
                        assert(s[i2] == t && s[i1] == s0[i1]);
                    }
                }
            },
            None => {},
        }
    }
}

/// An id carried by a collected line sits in some occupied cell of that line.
pub proof fn lemma_line_id_cell(g: Seq<Option<Tile>>, n: int, dir: Direction, k: int, x: u64)
    requires
        1 <= n,
        0 <= k < n,
        tiles_have_id(line_tiles(g, n, dir, k), x),
    ensures
        exists|q: int|
            0 <= q < n * n && line_of(n, dir, q) == k && #[trigger] g[q] is Some
                && g[q]->Some_0.id == x,
{
    lemma_line_tiles_upto(g, n, dir, k, n);
    let s = line_tiles(g, n, dir, k);
    let i = choose|i: int| 0 <= i < s.len() && #[trigger] s[i].id == x;
    let mm = choose|mm: int| 0 <= mm < n && g[line_idx(n, dir, k, mm)] == Some(s[i]);
    lemma_line_geom(n, dir, k, mm);
    let q = line_idx(n, dir, k, mm);
    assert(0 <= q < n * n && line_of(n, dir, q) == k && g[q] is Some && g[q]->Some_0.id == x);
}

/// Two different lines never carry the same id (the grid's cells do not).
pub proof fn lemma_lines_id_disjoint(
    g: Seq<Option<Tile>>,
    n: int,
    dir: Direction,
    k1: int,
    k2: int,
    x: u64,
)
    requires
        1 <= n,
        0 <= k1 < n,
        0 <= k2 < n,
        k1 != k2,
        g.len() == n * n,
        grid_distinct_ids(g),
        tiles_have_id(line_tiles(g, n, dir, k1), x),
    ensures
        !tiles_have_id(line_tiles(g, n, dir, k2), x),
{
    if tiles_have_id(line_tiles(g, n, dir, k2), x) {
        lemma_line_id_cell(g, n, dir, k1, x);
        lemma_line_id_cell(g, n, dir, k2, x);
        let q1 = choose|q: int|
            0 <= q < n * n && line_of(n, dir, q) == k1 && #[trigger] g[q] is Some
                && g[q]->Some_0.id == x;
        let q2 = choose|q: int|
            0 <= q < n * n && line_of(n, dir, q) == k2 && #[trigger] g[q] is Some
                && g[q]->Some_0.id == x;
        assert(q1 != q2);
        if q1 < q2 {
            assert(g[q1]->Some_0.id != g[q2]->Some_0.id);
        } else {
            assert(g[q2]->Some_0.id != g[q1]->Some_0.id);
        }
        assert(false);
    }
}

// ---------------------------------------------------------------------------
// Lemmas: retired tiles of a merged line
// ---------------------------------------------------------------------------

/// `t` is the retired counterpart of the absorbed tile of one of the slots
/// `ps`, whose first slot sits at offset `j0` of line `k`.
pub open spec fn retired_src_at(
    ps: Seq<MergeSlot>,
    n: int,
    dir: Direction,
    k: int,
    j0: int,
    t: Tile,
) -> bool {
    exists|j: int|
        0 <= j < ps.len() && (#[trigger] ps[j]).absorbed is Some && t == retired_tile(
            ps[j].absorbed->Some_0,
            n,
            dir,
            k,
            j0 + j,
        )
}

/// Every retired tile of the slots `ps` is the absorbed tile of one of the
/// slots, moved to that slot's cell.
pub proof fn lemma_slots_retired_src(ps: Seq<MergeSlot>, n: int, dir: Direction, k: int, j0: int)
    ensures
        slots_retired(ps, n, dir, k, j0).len() <= ps.len(),
        forall|i: int|
            0 <= i < slots_retired(ps, n, dir, k, j0).len() ==> retired_src_at(
                ps,
                n,
                dir,
                k,
                j0,
                #[trigger] slots_retired(ps, n, dir, k, j0)[i],
            ),
    decreases ps.len(),
{
    if ps.len() > 0 {
        lemma_slots_retired_src(ps.skip(1), n, dir, k, j0 + 1);
        let r = slots_retired(ps, n, dir, k, j0);
        let r1 = slots_retired(ps.skip(1), n, dir, k, j0 + 1);
        let head: int = match ps[0].absorbed {
            Some(a) => 1,
            None => 0,
        };
        assert forall|i: int| 0 <= i < r.len() implies retired_src_at(
            ps,
            n,
            dir,
            k,
            j0,
            #[trigger] r[i],
        ) by {
            if i < head {
                assert(ps[0].absorbed is Some && r[0] == retired_tile(
                    ps[0].absorbed->Some_0,
                    n,
                    dir,
                    k,
                    j0,
                ));
            } else {
                assert(r[i] == r1[i - head]);
                assert(retired_src_at(ps.skip(1), n, dir, k, j0 + 1, r1[i - head]));
                let j = choose|j: int|
                    0 <= j < ps.skip(1).len() && (#[trigger] ps.skip(1)[j]).absorbed is Some
                        && r1[i - head] == retired_tile(
                        ps.skip(1)[j].absorbed->Some_0,
                        n,
                        dir,
                        k,
                        j0 + 1 + j,
                    );
                assert(ps.skip(1)[j] == ps[j + 1]);
                assert(0 <= j + 1 < ps.len() && ps[j + 1].absorbed is Some && r[i] == retired_tile(
                    ps[j + 1].absorbed->Some_0,
                    n,
                    dir,
                    k,
                    j0 + (j + 1),
                ));
            }
        }
    }
}

/// The retired tiles of a merged line carry pairwise distinct ids.
pub proof fn lemma_slots_retired_distinct(
    ps: Seq<MergeSlot>,
    n: int,
    dir: Direction,
    k: int,
    j0: int,
)
    requires
        slots_distinct_ids(ps),
    ensures
        tiles_distinct_ids(slots_retired(ps, n, dir, k, j0)),
    decreases ps.len(),
{
    if ps.len() > 0 {
        assert(slots_distinct_ids(ps.skip(1))) by {
            assert forall|j1: int, j2: int| 0 <= j1 < j2 < ps.skip(1).len()
                implies slots_pair_distinct(#[trigger] ps.skip(1)[j1], #[trigger] ps.skip(1)[j2]) by {
                assert(ps.skip(1)[j1] == ps[j1 + 1] && ps.skip(1)[j2] == ps[j2 + 1]);
            }
            assert forall|j: int| 0 <= j < ps.skip(1).len() implies match (#[trigger] ps.skip(
                1,
            )[j]).absorbed {
                Some(a) => a.id != ps.skip(1)[j].out.id,
                None => true,
            } by {
                assert(ps.skip(1)[j] == ps[j + 1]);
            }
        }
        lemma_slots_retired_distinct(ps.skip(1), n, dir, k, j0 + 1);
        lemma_slots_retired_src(ps.skip(1), n, dir, k, j0 + 1);
        let r = slots_retired(ps, n, dir, k, j0);
        let r1 = slots_retired(ps.skip(1), n, dir, k, j0 + 1);
        let head: int = match ps[0].absorbed {
            Some(a) => 1,
            None => 0,
        };
        assert forall|i1: int, i2: int| 0 <= i1 < i2 < r.len() implies r[i1].id != r[i2].id by {
            if i1 >= head {
                assert(r[i1] == r1[i1 - head] && r[i2] == r1[i2 - head]);
            } else {
                // head retired tile vs a tail retired tile
                let a0 = ps[0].absorbed->Some_0;
                assert(r[i1].id == a0.id);
                assert(r[i2] == r1[i2 - head]);
                assert(retired_src_at(ps.skip(1), n, dir, k, j0 + 1, r1[i2 - head]));
                let j = choose|j: int|
                    0 <= j < ps.skip(1).len() && (#[trigger] ps.skip(1)[j]).absorbed is Some
                        && r1[i2 - head] == retired_tile(
                        ps.skip(1)[j].absorbed->Some_0,
                        n,
                        dir,
                        k,
                        j0 + 1 + j,
                    );
                assert(ps.skip(1)[j] == ps[j + 1]);
                assert(slots_pair_distinct(ps[0], ps[j + 1]));
            }
        }
    }
}

// ---------------------------------------------------------------------------
// Lemmas: the resolved grid
// ---------------------------------------------------------------------------

/// The tile of the occupied resolved cell `p` is the tile of the occupied
/// old cell `q` of the same line: same id, value kept or doubled once, phase
/// kept unless retagged for animation.
pub open spec fn resolved_src_at(
    g: Seq<Option<Tile>>,
    n: int,
    dir: Direction,
    p: int,
    q: int,
) -> bool {
    &&& 0 <= q < n * n
    &&& line_of(n, dir, q) == line_of(n, dir, p)
    &&& g[q] is Some
    &&& {
        let src = g[q]->Some_0;
        let t = resolved_cell(g, n, dir, p)->Some_0;
        &&& t.id == src.id
        &&& (t.value == src.value || t.value == 2 * src.value)
        &&& (t.phase == AnimationPhase::MergingInto || t.phase == AnimationPhase::Moving
            || t.phase == src.phase)
    }
}

/// Every occupied resolved cell is sourced from an occupied old cell of the
/// same line.
pub proof fn lemma_resolved_cell_src(g: Seq<Option<Tile>>, n: int, dir: Direction, p: int)
    requires
        1 <= n,
        g.len() == n * n,
        0 <= p < n * n,
        resolved_cell(g, n, dir, p) is Some,
    ensures
        exists|q: int| #[trigger] resolved_src_at(g, n, dir, p, q),
{
    lemma_idx_geom(n, dir, p);
    let k = line_of(n, dir, p);
    let mo = off_of(n, dir, p);
    let s = line_tiles(g, n, dir, k);
    let ps = merge_slots(s);
    lemma_merge_slots_structure(s);
    assert(slot_sourced(s, ps[mo]));
    let i = choose|i: int| 0 <= i < s.len() && from_tile(ps[mo].out, #[trigger] s[i]);
    lemma_line_tiles_upto(g, n, dir, k, n);
    let mm = choose|mm: int| 0 <= mm < n && g[line_idx(n, dir, k, mm)] == Some(s[i]);
    lemma_line_geom(n, dir, k, mm);
    let q = line_idx(n, dir, k, mm);
    assert(resolved_src_at(g, n, dir, p, q));
}

/// Appending a slot appends its retired tile, if any.
pub proof fn lemma_slots_retired_push(
    ps: Seq<MergeSlot>,
    x: MergeSlot,
    n: int,
    dir: Direction,
    k: int,
    j0: int,
)
    ensures
        slots_retired(ps.push(x), n, dir, k, j0) == slots_retired(ps, n, dir, k, j0) + (match x
            .absorbed {
            Some(a) => seq![retired_tile(a, n, dir, k, j0 + ps.len())],
            None => Seq::<Tile>::empty(),
        }),
    decreases ps.len(),
{
    if ps.len() == 0 {
        assert(ps.push(x) =~= seq![x]);
        assert(seq![x].skip(1) =~= Seq::<MergeSlot>::empty());
        assert(slots_retired(Seq::<MergeSlot>::empty(), n, dir, k, j0 + 1)
            == Seq::<Tile>::empty());
        assert(slots_retired(ps.push(x), n, dir, k, j0) =~= slots_retired(ps, n, dir, k, j0)
            + (match x.absorbed {
            Some(a) => seq![retired_tile(a, n, dir, k, j0 + ps.len())],
            None => Seq::<Tile>::empty(),
        }));
    } else {
        assert(ps.push(x).skip(1) =~= ps.skip(1).push(x));
        lemma_slots_retired_push(ps.skip(1), x, n, dir, k, j0 + 1);
        assert(ps.push(x)[0] == ps[0]);
        assert(slots_retired(ps.push(x), n, dir, k, j0) =~= slots_retired(ps, n, dir, k, j0)
            + (match x.absorbed {
            Some(a) => seq![retired_tile(a, n, dir, k, j0 + ps.len())],
            None => Seq::<Tile>::empty(),
        }));
    }
}

/// `t` was retired by merging line `k`.
pub open spec fn retired_from_line(
    g: Seq<Option<Tile>>,
    n: int,
    dir: Direction,
    k: int,
    t: Tile,
) -> bool {
    retired_src_at(merge_slots(line_tiles(g, n, dir, k)), n, dir, k, 0, t)
}

/// A tile retired by line `k` is a pending removal on the board area whose id
/// and value are those of an occupied old cell of line `k`.
pub proof fn lemma_retired_from_line_facts(
    g: Seq<Option<Tile>>,
    n: int,
    dir: Direction,
    k: int,
    t: Tile,
)
    requires
        1 <= n,
        0 <= k < n,
        g.len() == n * n,
        retired_from_line(g, n, dir, k, t),
    ensures
        t.phase is PendingRemoval,
        t.col < n,
        t.row < n,
        tiles_have_id(line_tiles(g, n, dir, k), t.id),
        exists|q: int|
            0 <= q < n * n && line_of(n, dir, q) == k && #[trigger] g[q] is Some
                && g[q]->Some_0.id == t.id && g[q]->Some_0.value == t.value,
{
    let s = line_tiles(g, n, dir, k);
    let ps = merge_slots(s);
    lemma_merge_slots_structure(s);
    lemma_line_tiles_upto(g, n, dir, k, n);
    let j = choose|j: int|
        0 <= j < ps.len() && (#[trigger] ps[j]).absorbed is Some && t == retired_tile(
            ps[j].absorbed->Some_0,
            n,
            dir,
            k,
            0 + j,
        );
    lemma_line_geom(n, dir, k, j);
    let a = ps[j].absorbed->Some_0;
    assert(slot_sourced(s, ps[j]));
    let i = choose|i: int| 0 <= i < s.len() && a == #[trigger] s[i];
    assert(s[i].id == t.id);
    let mm = choose|mm: int| 0 <= mm < n && g[line_idx(n, dir, k, mm)] == Some(s[i]);
    lemma_line_geom(n, dir, k, mm);
    let q = line_idx(n, dir, k, mm);
    assert(0 <= q < n * n && line_of(n, dir, q) == k && g[q] is Some && g[q]->Some_0.id == t.id
        && g[q]->Some_0.value == t.value);
}

/// `t` was retired by one of the first `kk` lines.
pub open spec fn retired_from_lines(
    g: Seq<Option<Tile>>,
    n: int,
    dir: Direction,
    kk: int,
    t: Tile,
) -> bool {
    exists|k: int| 0 <= k < kk && #[trigger] retired_from_line(g, n, dir, k, t)
}

/// Every tile retired by a move comes from one of the first `kk` lines, and
/// the retired tiles carry pairwise distinct ids.
pub proof fn lemma_retired_upto(g: Seq<Option<Tile>>, n: int, dir: Direction, kk: int)
    requires
        1 <= n,
        0 <= kk <= n,
        g.len() == n * n,
        grid_distinct_ids(g),
    ensures
        forall|i: int|
            0 <= i < retired_upto(g, n, dir, kk).len() ==> retired_from_lines(
                g,
                n,
                dir,
                kk,
                #[trigger] retired_upto(g, n, dir, kk)[i],
            ),
        tiles_distinct_ids(retired_upto(g, n, dir, kk)),
    decreases kk,
{
    if kk > 0 {
        lemma_retired_upto(g, n, dir, kk - 1);
        let r0 = retired_upto(g, n, dir, kk - 1);
        let s = line_tiles(g, n, dir, kk - 1);
        let ps = merge_slots(s);
        let rl = line_retired(g, n, dir, kk - 1);
        let r = retired_upto(g, n, dir, kk);
        lemma_line_tiles_distinct(g, n, dir, kk - 1, n);
        lemma_merge_slots_ids(s);
        lemma_slots_retired_src(ps, n, dir, kk - 1, 0);
        lemma_slots_retired_distinct(ps, n, dir, kk - 1, 0);
        assert forall|i: int| 0 <= i < r.len() implies retired_from_lines(
            g,
            n,
            dir,
            kk,
            #[trigger] r[i],
        ) by {
            if i < r0.len() {
                assert(r[i] == r0[i]);
                assert(retired_from_lines(g, n, dir, kk - 1, r0[i]));
                let k = choose|k: int|
                    0 <= k < kk - 1 && #[trigger] retired_from_line(g, n, dir, k, r0[i]);
                assert(retired_from_line(g, n, dir, k, r[i]));
            } else {
                assert(r[i] == rl[i - r0.len()]);
                assert(retired_from_line(g, n, dir, kk - 1, r[i]));
            }
        }
        assert forall|i1: int, i2: int| 0 <= i1 < i2 < r.len() implies r[i1].id != r[i2].id by {
            if i2 < r0.len() {
                assert(r[i1] == r0[i1] && r[i2] == r0[i2]);
            } else if i1 >= r0.len() {
                assert(r[i1] == rl[i1 - r0.len()] && r[i2] == rl[i2 - r0.len()]);
            } else {
                assert(r[i1] == r0[i1] && r[i2] == rl[i2 - r0.len()]);
                assert(retired_from_lines(g, n, dir, kk - 1, r0[i1]));
                let k1 = choose|k: int|
                    0 <= k < kk - 1 && #[trigger] retired_from_line(g, n, dir, k, r0[i1]);
                lemma_retired_from_line_facts(g, n, dir, k1, r0[i1]);
                lemma_retired_from_line_facts(g, n, dir, kk - 1, rl[i2 - r0.len()]);
                lemma_lines_id_disjoint(g, n, dir, k1, kk - 1, r0[i1].id);
            }
        }
    }
}

/// A move preserves well-formedness: the board and the retiring list stay
/// consistent, every id still appears exactly once.
pub proof fn lemma_resolve_wf(m: Model, dir: Direction)
    requires
        wf(m),
    ensures
        wf(spec_resolve(m, dir)),
{
    let n = m.n;
    let g = m.grid;
    let m2 = spec_resolve(m, dir);
    let g2 = m2.grid;
    let ar = all_retired(g, n, dir);
    lemma_retired_upto(g, n, dir, n);
    // every occupied resolved cell is well-formed
    assert forall|p: int| 0 <= p < g2.len() implies #[trigger] cell_ok(m2, p) by {
        lemma_idx_geom(n, dir, p);
        let k = line_of(n, dir, p);
        let mo = off_of(n, dir, p);
        let s = line_tiles(g, n, dir, k);
        let ps = merge_slots(s);
        if mo < ps.len() {
            assert(g2[p] == resolved_cell(g, n, dir, p));
            lemma_resolved_cell_src(g, n, dir, p);
            let q = choose|q: int| #[trigger] resolved_src_at(g, n, dir, p, q);
            assert(cell_ok(m, q));
        } else {
            assert(g2[p] == resolved_cell(g, n, dir, p));
            assert(g2[p] is None);
        }
    }
    // no two occupied resolved cells share an id
    assert forall|p1: int, p2: int|
        0 <= p1 < p2 < g2.len() && #[trigger] g2[p1] is Some && #[trigger] g2[p2] is Some
        implies g2[p1]->Some_0.id != g2[p2]->Some_0.id by {
        lemma_idx_geom(n, dir, p1);
        lemma_idx_geom(n, dir, p2);
        let k1 = line_of(n, dir, p1);
        let k2 = line_of(n, dir, p2);
        let mo1 = off_of(n, dir, p1);
        let mo2 = off_of(n, dir, p2);
        assert(g2[p1] == resolved_cell(g, n, dir, p1));
        assert(g2[p2] == resolved_cell(g, n, dir, p2));
        if k1 == k2 {
            let s = line_tiles(g, n, dir, k1);
            let ps = merge_slots(s);
            lemma_line_tiles_distinct(g, n, dir, k1, n);
            lemma_merge_slots_ids(s);
            assert(mo1 != mo2);
            if mo1 < mo2 {
                assert(slots_pair_distinct(ps[mo1], ps[mo2]));
            } else {
                assert(slots_pair_distinct(ps[mo2], ps[mo1]));
            }
        } else {
            let s1 = line_tiles(g, n, dir, k1);
            let s2 = line_tiles(g, n, dir, k2);
            lemma_line_tiles_distinct(g, n, dir, k1, n);
            lemma_line_tiles_distinct(g, n, dir, k2, n);
            lemma_merge_slots_ids(s1);
            lemma_merge_slots_ids(s2);
            let ps1 = merge_slots(s1);
            let ps2 = merge_slots(s2);
            assert(slot_ids_from(s1, ps1[mo1]));
            assert(slot_ids_from(s2, ps2[mo2]));
            lemma_lines_id_disjoint(g, n, dir, k1, k2, g2[p1]->Some_0.id);
        }
    }
    // the retiring list stays well-formed
    assert forall|i: int| 0 <= i < m2.retiring.len() implies #[trigger] retiring_ok(m2, i) by {
        if i < m.retiring.len() {
            assert(retiring_ok(m, i));
        } else {
            assert(m2.retiring[i] == ar[i - m.retiring.len()]);
            let t = ar[i - m.retiring.len()];
            assert(retired_upto(g, n, dir, n)[i - m.retiring.len()] == t);
            assert(retired_from_lines(g, n, dir, n, t));
            let k = choose|k: int| 0 <= k < n && #[trigger] retired_from_line(g, n, dir, k, t);
            lemma_retired_from_line_facts(g, n, dir, k, t);
            let q = choose|q: int|
                0 <= q < n * n && line_of(n, dir, q) == k && #[trigger] g[q] is Some
                    && g[q]->Some_0.id == t.id && g[q]->Some_0.value == t.value;
            assert(cell_ok(m, q));
        }
    }
    // retiring ids stay pairwise distinct
    assert forall|i1: int, i2: int| 0 <= i1 < i2 < m2.retiring.len()
        implies #[trigger] m2.retiring[i1].id != #[trigger] m2.retiring[i2].id by {
        let old_len = m.retiring.len() as int;
        if i2 < old_len {
            assert(m2.retiring[i1] == m.retiring[i1] && m2.retiring[i2] == m.retiring[i2]);
        } else if i1 >= old_len {
            assert(m2.retiring[i1] == ar[i1 - old_len] && m2.retiring[i2] == ar[i2 - old_len]);
        } else {
            assert(m2.retiring[i1] == m.retiring[i1] && m2.retiring[i2] == ar[i2 - old_len]);
            let t = ar[i2 - old_len];
            assert(retired_upto(g, n, dir, n)[i2 - m.retiring.len()] == t);
            assert(retired_from_lines(g, n, dir, n, t));
            let k = choose|k: int| 0 <= k < n && #[trigger] retired_from_line(g, n, dir, k, t);
            lemma_retired_from_line_facts(g, n, dir, k, t);
            let q = choose|q: int|
                0 <= q < n * n && line_of(n, dir, q) == k && #[trigger] g[q] is Some
                    && g[q]->Some_0.id == t.id && g[q]->Some_0.value == t.value;
        }
    }
    // no id appears both on the resolved board and in the retiring list
    assert forall|p: int, i: int|
        0 <= p < g2.len() && 0 <= i < m2.retiring.len() && #[trigger] g2[p] is Some
        implies g2[p]->Some_0.id != #[trigger] m2.retiring[i].id by {
        lemma_idx_geom(n, dir, p);
        let kp = line_of(n, dir, p);
        let mo = off_of(n, dir, p);
        assert(g2[p] == resolved_cell(g, n, dir, p));
        let sp = line_tiles(g, n, dir, kp);
        let psp = merge_slots(sp);
        lemma_line_tiles_distinct(g, n, dir, kp, n);
        lemma_merge_slots_ids(sp);
        assert(slot_ids_from(sp, psp[mo]));
        let old_len = m.retiring.len() as int;
        if i < old_len {
            // the resolved tile's id sits in some old cell of line `kp`
            assert(m2.retiring[i] == m.retiring[i]);
            lemma_line_id_cell(g, n, dir, kp, g2[p]->Some_0.id);
            let q = choose|q: int|
                0 <= q < n * n && line_of(n, dir, q) == kp && #[trigger] g[q] is Some
                    && g[q]->Some_0.id == g2[p]->Some_0.id;
        } else {
            let t = ar[i - old_len];
            assert(m2.retiring[i] == t);
            assert(retired_upto(g, n, dir, n)[i - m.retiring.len()] == t);
            assert(retired_from_lines(g, n, dir, n, t));
            let k = choose|k: int| 0 <= k < n && #[trigger] retired_from_line(g, n, dir, k, t);
            if k != kp {
                lemma_retired_from_line_facts(g, n, dir, k, t);
                lemma_lines_id_disjoint(g, n, dir, kp, k, g2[p]->Some_0.id);
            } else {
                // same line: the surviving slot and the absorbed slot differ
                let j = choose|j: int|
                    0 <= j < psp.len() && (#[trigger] psp[j]).absorbed is Some && t
                        == retired_tile(psp[j].absorbed->Some_0, n, dir, k, 0 + j);
                if j == mo {
                } else if j < mo {
                    assert(slots_pair_distinct(psp[j], psp[mo]));
                } else {
                    assert(slots_pair_distinct(psp[mo], psp[j]));
                }
            }
        }
    }
    assert(wf(m2));
}

// ---------------------------------------------------------------------------
// Lemmas: sum conservation
// ---------------------------------------------------------------------------

/// The sum over a line's cells equals the sum over its collected tiles.
pub proof fn lemma_line_sum_tiles(g: Seq<Option<Tile>>, n: int, dir: Direction, k: int, m: int)
    requires
        0 <= m,
    ensures
        line_sum_upto(g, n, dir, k, m) == tiles_sum(line_tiles_upto(g, n, dir, k, m)),
    decreases m,
{
    if m > 0 {
        lemma_line_sum_tiles(g, n, dir, k, m - 1);
        let s0 = line_tiles_upto(g, n, dir, k, m - 1);
        match g[line_idx(n, dir, k, m - 1)] {
            Some(t) => {
                assert(line_tiles_upto(g, n, dir, k, m) =~= s0.push(t));
                lemma_tiles_sum_push(s0, t);
            },
            None => {
                assert(line_tiles_upto(g, n, dir, k, m) =~= s0);
            },
        }
    }
}

/// The first `j` surviving tiles of the merged line `k`, written to their
/// final cells.
pub open spec fn outs_prefix(ps: Seq<MergeSlot>, n: int, dir: Direction, k: int, j: int) -> Seq<
    Tile,
>
    decreases j,
{
    if j <= 0 {
        Seq::empty()
    } else {
        outs_prefix(ps, n, dir, k, j - 1) + seq![
            finalize(ps[j - 1], n, line_idx(n, dir, k, j - 1)),
        ]
    }
}

/// Collecting line `k` of the resolved grid yields exactly the finalized
/// surviving tiles of the merged line.
pub proof fn lemma_resolved_line_tiles(g: Seq<Option<Tile>>, n: int, dir: Direction, k: int, m: int)
    requires
        1 <= n,
        0 <= k < n,
        0 <= m <= n,
        g.len() == n * n,
    ensures
        line_tiles_upto(resolved_grid(g, n, dir), n, dir, k, m) == outs_prefix(
            merge_slots(line_tiles(g, n, dir, k)),
            n,
            dir,
            k,
            if m <= merge_slots(line_tiles(g, n, dir, k)).len() {
                m
            } else {
                merge_slots(line_tiles(g, n, dir, k)).len() as int
            },
        ),
    decreases m,
{
    let g2 = resolved_grid(g, n, dir);
    let ps = merge_slots(line_tiles(g, n, dir, k));
    if m > 0 {
        lemma_resolved_line_tiles(g, n, dir, k, m - 1);
        lemma_line_geom(n, dir, k, m - 1);
        let p = line_idx(n, dir, k, m - 1);
        assert(g2[p] == resolved_cell(g, n, dir, p));
        assert(line_of(n, dir, p) == k && off_of(n, dir, p) == m - 1);
        if m - 1 < ps.len() {
            assert(g2[p] == Some(finalize(ps[m - 1], n, p)));
            assert(line_tiles_upto(g2, n, dir, k, m) =~= outs_prefix(ps, n, dir, k, m - 1) + seq![
                finalize(ps[m - 1], n, line_idx(n, dir, k, m - 1)),
            ]);
        } else {
            assert(g2[p] is None);
            assert(line_tiles_upto(g2, n, dir, k, m) =~= line_tiles_upto(g2, n, dir, k, m - 1));
        }
    }
}

/// The sum of the finalized surviving tiles equals the sum of the slots.
pub proof fn lemma_outs_prefix_sum(ps: Seq<MergeSlot>, n: int, dir: Direction, k: int, j: int)
    requires
        0 <= j <= ps.len(),
    ensures
        tiles_sum(outs_prefix(ps, n, dir, k, j)) == slots_sum(ps.take(j)),
    decreases j,
{
    if j == 0 {
        assert(ps.take(0) =~= Seq::<MergeSlot>::empty());
    } else {
        lemma_outs_prefix_sum(ps, n, dir, k, j - 1);
        let t = finalize(ps[j - 1], n, line_idx(n, dir, k, j - 1));
        assert(outs_prefix(ps, n, dir, k, j) =~= outs_prefix(ps, n, dir, k, j - 1).push(t));
        lemma_tiles_sum_push(outs_prefix(ps, n, dir, k, j - 1), t);
        assert(ps.take(j) =~= ps.take(j - 1).push(ps[j - 1]));
        lemma_slots_sum_push(ps.take(j - 1), ps[j - 1]);
    }
}

/// A move conserves the sum of the values on each line.
pub proof fn lemma_resolve_line_sum(g: Seq<Option<Tile>>, n: int, dir: Direction, k: int)
    requires
        1 <= n,
        0 <= k < n,
        g.len() == n * n,
    ensures
        line_sum(resolved_grid(g, n, dir), n, dir, k) == line_sum(g, n, dir, k),
{
    let g2 = resolved_grid(g, n, dir);
    let s = line_tiles(g, n, dir, k);
    let ps = merge_slots(s);
    lemma_line_tiles_upto(g, n, dir, k, n);
    lemma_merge_slots_structure(s);
    lemma_line_sum_tiles(g2, n, dir, k, n);
    lemma_line_sum_tiles(g, n, dir, k, n);
    lemma_resolved_line_tiles(g, n, dir, k, n);
    lemma_outs_prefix_sum(ps, n, dir, k, ps.len() as int);
    assert(ps.take(ps.len() as int) =~= ps);
}

proof fn lemma_resolve_lines_acc(g: Seq<Option<Tile>>, n: int, dir: Direction, k: int)
    requires
        1 <= n,
        0 <= k <= n,
        g.len() == n * n,
    ensures
        lines_acc(resolved_grid(g, n, dir), n, dir, k) == lines_acc(g, n, dir, k),
    decreases k,
{
    if k > 0 {
        lemma_resolve_lines_acc(g, n, dir, k - 1);
        lemma_resolve_line_sum(g, n, dir, k - 1);
    }
}

/// A move conserves the total value on the board: merged pairs fold two
/// equal values into their sum, everything else is only rearranged.
pub proof fn lemma_resolve_sum(m: Model, dir: Direction)
    requires
        wf(m),
    ensures
        grid_sum(spec_resolve(m, dir).grid, m.n) == grid_sum(m.grid, m.n),
{
    lemma_grid_sum_lines(m.grid, m.n, dir);
    lemma_grid_sum_lines(resolved_grid(m.grid, m.n, dir), m.n, dir);
    lemma_resolve_lines_acc(m.grid, m.n, dir, m.n);
}

// ---------------------------------------------------------------------------
// Lemmas: packing and single merges
// ---------------------------------------------------------------------------

/// After a move, every line is packed against its wall: an occupied offset
/// has every offset between it and the wall occupied too.
pub proof fn lemma_resolve_packed(m: Model, dir: Direction)
    requires
        wf(m),
    ensures
        forall|k: int, m1: int, m2: int|
            0 <= k < m.n && 0 <= m1 < m2 < m.n && #[trigger] spec_resolve(
                m,
                dir,
            ).grid[line_idx(m.n, dir, k, m2)] is Some ==> #[trigger] spec_resolve(
                m,
                dir,
            ).grid[line_idx(m.n, dir, k, m1)] is Some,
{
    let n = m.n;
    let g = m.grid;
    let g2 = spec_resolve(m, dir).grid;
    assert forall|k: int, m1: int, m2: int|
        0 <= k < n && 0 <= m1 < m2 < n && #[trigger] g2[line_idx(n, dir, k, m2)] is Some
        implies #[trigger] g2[line_idx(n, dir, k, m1)] is Some by {
        lemma_line_geom(n, dir, k, m1);
        lemma_line_geom(n, dir, k, m2);
        let p1 = line_idx(n, dir, k, m1);
        let p2 = line_idx(n, dir, k, m2);
        assert(g2[p1] == resolved_cell(g, n, dir, p1));
        assert(g2[p2] == resolved_cell(g, n, dir, p2));
    }
}

/// Within a single move, no tile's value is doubled more than once: every
/// surviving tile is a tile of the previous board with its value kept, or
/// doubled exactly once by the one merge it absorbed.
pub proof fn lemma_resolve_at_most_doubled(m: Model, dir: Direction)
    requires
        wf(m),
    ensures
        forall|p: int|
            0 <= p < m.grid.len() && #[trigger] spec_resolve(m, dir).grid[p] is Some
                ==> exists|q: int| #[trigger] resolved_src_at(m.grid, m.n, dir, p, q),
{
    let n = m.n;
    let g = m.grid;
    let g2 = spec_resolve(m, dir).grid;
    assert forall|p: int| 0 <= p < g.len() && #[trigger] g2[p] is Some implies exists|q: int|
        #[trigger] resolved_src_at(g, n, dir, p, q) by {
        assert(g2[p] == resolved_cell(g, n, dir, p));
        lemma_resolved_cell_src(g, n, dir, p);
    }
}

proof fn lemma_slots_retired_none(ps: Seq<MergeSlot>, n: int, dir: Direction, k: int, j0: int)
    requires
        forall|j: int| 0 <= j < ps.len() ==> (#[trigger] ps[j]).absorbed is None,
    ensures
        slots_retired(ps, n, dir, k, j0).len() == 0,
    decreases ps.len(),
{
    if ps.len() > 0 {
        assert forall|j: int| 0 <= j < ps.skip(1).len() implies (#[trigger] ps.skip(
            1,
        )[j]).absorbed is None by {
            assert(ps.skip(1)[j] == ps[j + 1]);
        }
        lemma_slots_retired_none(ps.skip(1), n, dir, k, j0 + 1);
    }
}

proof fn lemma_retired_upto_len(g: Seq<Option<Tile>>, n: int, dir: Direction, kk: int)
    requires
        forall|k: int| 0 <= k < kk ==> #[trigger] line_retired(g, n, dir, k).len() == 0,
    ensures
        retired_upto(g, n, dir, kk).len() == 0,
    decreases kk,
{
    if kk > 0 {
        lemma_retired_upto_len(g, n, dir, kk - 1);
    }
}

/// An exact no-op: when a move changes no cell's id, every cell in fact
/// holds exactly the tile it held before — same value, same phase — and
/// nothing is retired.  The `changed` flag therefore detects every change.
pub proof fn lemma_unchanged_resolve(m: Model, dir: Direction)
    requires
        wf(m),
        !spec_changed(m, dir),
    ensures
        spec_resolve(m, dir).grid =~= m.grid,
        all_retired(m.grid, m.n, dir).len() == 0,
{
    let n = m.n;
    let g = m.grid;
    let g2 = spec_resolve(m, dir).grid;
    // no line merges anything: an absorbed tile's id would vanish from its
    // cell, but every cell keeps its id
    assert forall|k: int, j: int|
        0 <= k < n && 0 <= j < merge_slots(line_tiles(g, n, dir, k)).len()
        implies (#[trigger] merge_slots(line_tiles(g, n, dir, k))[j]).absorbed is None by {
        let s = line_tiles(g, n, dir, k);
        let ps = merge_slots(s);
        lemma_line_tiles_upto(g, n, dir, k, n);
        lemma_line_tiles_distinct(g, n, dir, k, n);
        lemma_merge_slots_structure(s);
        lemma_merge_slots_ids(s);
        if ps[j].absorbed is Some {
            let a = ps[j].absorbed->Some_0;
            assert(slot_sourced(s, ps[j]));
            let i = choose|i: int| 0 <= i < s.len() && a == #[trigger] s[i];
            let mm = choose|mm: int| 0 <= mm < n && g[line_idx(n, dir, k, mm)] == Some(s[i]);
            lemma_line_geom(n, dir, k, mm);
            let q = line_idx(n, dir, k, mm);
            assert(opt_id(g[q]) == Some(a.id));
            assert(opt_id(resolved_cell(g, n, dir, q)) == Some(a.id));
            let moq = off_of(n, dir, q);
            assert(moq < ps.len());
            assert(ps[moq].out.id == a.id);
            if moq == j {
            } else if moq < j {
                assert(slots_pair_distinct(ps[moq], ps[j]));
            } else {
                assert(slots_pair_distinct(ps[j], ps[moq]));
            }
            assert(false);
        }
    }
    assert forall|k: int| 0 <= k < n implies #[trigger] line_retired(g, n, dir, k).len() == 0 by {
        lemma_slots_retired_none(merge_slots(line_tiles(g, n, dir, k)), n, dir, k, 0);
    }
    lemma_retired_upto_len(g, n, dir, n);
    // every cell keeps its exact tile
    assert forall|p: int| 0 <= p < g.len() implies g2[p] == g[p] by {
        lemma_idx_geom(n, dir, p);
        let k = line_of(n, dir, p);
        let mo = off_of(n, dir, p);
        let s = line_tiles(g, n, dir, k);
        let ps = merge_slots(s);
        lemma_line_tiles_upto(g, n, dir, k, n);
        lemma_merge_slots_structure(s);
        assert(g2[p] == resolved_cell(g, n, dir, p));
        assert(opt_id(g[p]) == opt_id(resolved_cell(g, n, dir, p)));
        match g[p] {
            None => {
                assert(resolved_cell(g, n, dir, p) is None);
            },
            Some(t) => {
                assert(resolved_cell(g, n, dir, p) is Some);
                assert(mo < ps.len());
                assert(ps[mo].absorbed is None);
                assert(slot_sourced(s, ps[mo]));
                let i = choose|i: int| 0 <= i < s.len() && ps[mo].out == #[trigger] s[i];
                let mm = choose|mm: int| 0 <= mm < n && g[line_idx(n, dir, k, mm)] == Some(s[i]);
                lemma_line_geom(n, dir, k, mm);
                let q = line_idx(n, dir, k, mm);
                assert(s[i].id == t.id);
                if q != p {
                    if q < p {
                        assert(g[q]->Some_0.id != g[p]->Some_0.id);
                    } else {
                        assert(g[p]->Some_0.id != g[q]->Some_0.id);
                    }
                    assert(false);
                }
                assert(s[i] == t);
                assert(cell_ok(m, p));
                assert(g2[p] == Some(finalize(ps[mo], n, p)));
                assert(finalize(ps[mo], n, p) == t);
            },
        }
    }
}

// ---------------------------------------------------------------------------
// Lemmas: spawning, resetting, despawning
// ---------------------------------------------------------------------------

/// The collected empty-cell indices are exactly indices of empty cells.
pub proof fn lemma_empties_upto(g: Seq<Option<Tile>>, p: int)
    requires
        0 <= p <= g.len(),
    ensures
        empties_upto(g, p).len() <= p,
        forall|i: int|
            0 <= i < empties_upto(g, p).len() ==> 0 <= #[trigger] empties_upto(g, p)[i] < p
                && g[empties_upto(g, p)[i]] is None,
    decreases p,
{
    if p > 0 {
        lemma_empties_upto(g, p - 1);
        let e0 = empties_upto(g, p - 1);
        let e = empties_upto(g, p);
        assert forall|i: int| 0 <= i < e.len() implies 0 <= #[trigger] e[i] < p && g[e[i]] is None by {
            if i < e0.len() {
                assert(e[i] == e0[i]);
            } else {
                assert(g[p - 1] is None && e[i] == p - 1);
            }
        }
    }
}

/// The spawn step preserves well-formedness.
pub proof fn lemma_spawn_wf(m: Model, changed: bool)
    requires
        wf(m),
    ensures
        wf(spec_spawn_if(m, changed)),
{
    if spawn_happens(m, changed) {
        let g = m.grid;
        let n = m.n;
        let m2 = spec_spawn_if(m, changed);
        lemma_empties_upto(g, g.len() as int);
        let es = empties(g);
        let p = spawn_cell(m);
        assert(0 <= (wy_out(m.rng) as int) % (es.len() as int) < es.len());
        assert(0 <= p < g.len() && g[p] is None);
        lemma_idx_geom(n, dir_any(), p);
        assert forall|q: int| 0 <= q < m2.grid.len() implies #[trigger] cell_ok(m2, q) by {
            if q != p {
                assert(m2.grid[q] == g[q]);
                assert(cell_ok(m, q));
            }
        }
        assert forall|p1: int, p2: int|
            0 <= p1 < p2 < m2.grid.len() && #[trigger] m2.grid[p1] is Some
                && #[trigger] m2.grid[p2] is Some
            implies m2.grid[p1]->Some_0.id != m2.grid[p2]->Some_0.id by {
            if p1 != p && p2 != p {
                assert(m2.grid[p1] == g[p1] && m2.grid[p2] == g[p2]);
            } else if p1 == p {
                assert(m2.grid[p2] == g[p2] && cell_ok(m, p2));
            } else {
                assert(m2.grid[p1] == g[p1] && cell_ok(m, p1));
            }
        }
        assert forall|i: int| 0 <= i < m2.retiring.len() implies #[trigger] retiring_ok(m2, i) by {
            assert(retiring_ok(m, i));
        }
        assert forall|q: int, i: int|
            0 <= q < m2.grid.len() && 0 <= i < m2.retiring.len() && #[trigger] m2.grid[q] is Some
            implies m2.grid[q]->Some_0.id != #[trigger] m2.retiring[i].id by {
            assert(retiring_ok(m, i));
            if q != p {
                assert(m2.grid[q] == g[q]);
            }
        }
    }
}

/// An arbitrary direction, used only to instantiate geometry lemmas whose
/// direction does not matter.
pub open spec fn dir_any() -> Direction {
    Direction::Up
}

/// A reset produces a well-formed state.
pub proof fn lemma_reset_wf(m: Model)
    requires
        2 <= m.n <= MAX_SIDE,
    ensures
        wf(spec_reset(m)),
        reset_first(m) != reset_second(m),
        0 <= reset_first(m) < m.n * m.n,
        0 <= reset_second(m) < m.n * m.n,
{
    let n = m.n;
    let m2 = spec_reset(m);
    let p1 = reset_first(m);
    let p2 = reset_second(m);
    assert(n * n >= 4) by (nonlinear_arith)
        requires
            n >= 2,
    ;
    assert(0 <= (wy_out(m.rng) as int) % (n * n) < n * n);
    assert(0 <= (wy_out(wy_next(m.rng)) as int) % (n * n - 1) < n * n - 1);
    lemma_idx_geom(n, dir_any(), p1);
    lemma_idx_geom(n, dir_any(), p2);
    assert forall|q: int| 0 <= q < m2.grid.len() implies #[trigger] cell_ok(m2, q) by {}
    assert(wf(m2));
}

/// What an advanced retiring tile is: one of the previous retiring tiles,
/// same identity, cell and value, still pending removal (unless its phase was
/// never a countdown), with its countdown decreased.
pub open spec fn advanced_src(s: Seq<Tile>, t: Tile) -> bool {
    exists|i: int|
        0 <= i < s.len() && #[trigger] s[i].id == t.id && s[i].col == t.col && s[i].row == t.row
            && s[i].value == t.value && (t == s[i] || t.phase is PendingRemoval)
}

/// Advancing the countdowns keeps each tile's identity, cell and value, and
/// keeps the ids pairwise distinct.
pub proof fn lemma_advanced_retiring(s: Seq<Tile>, e: u64)
    ensures
        forall|i: int|
            0 <= i < advanced_retiring(s, e).len() ==> advanced_src(
                s,
                #[trigger] advanced_retiring(s, e)[i],
            ),
        tiles_distinct_ids(s) ==> tiles_distinct_ids(advanced_retiring(s, e)),
    decreases s.len(),
{
    if s.len() > 0 {
        lemma_advanced_retiring(s.skip(1), e);
        let a = advanced_retiring(s, e);
        let a1 = advanced_retiring(s.skip(1), e);
        let head: int = a.len() - a1.len();
        assert forall|i: int| 0 <= i < a.len() implies advanced_src(s, #[trigger] a[i]) by {
            if i < head {
                assert(a[i].id == s[0].id && a[i].col == s[0].col && a[i].row == s[0].row
                    && a[i].value == s[0].value && (a[i] == s[0] || a[i].phase is PendingRemoval));
            } else {
                assert(a[i] == a1[i - head]);
                assert(advanced_src(s.skip(1), a1[i - head]));
                let i0 = choose|i0: int|
                    0 <= i0 < s.skip(1).len() && #[trigger] s.skip(1)[i0].id == a1[i - head].id
                        && s.skip(1)[i0].col == a1[i - head].col && s.skip(1)[i0].row == a1[i
                        - head].row && s.skip(1)[i0].value == a1[i - head].value && (a1[i - head]
                        == s.skip(1)[i0] || a1[i - head].phase is PendingRemoval);
                assert(s.skip(1)[i0] == s[i0 + 1]);
            }
        }
        if tiles_distinct_ids(s) {
            assert(tiles_distinct_ids(s.skip(1))) by {
                assert forall|i1: int, i2: int| 0 <= i1 < i2 < s.skip(1).len()
                    implies s.skip(1)[i1].id != s.skip(1)[i2].id by {
                    assert(s.skip(1)[i1] == s[i1 + 1] && s.skip(1)[i2] == s[i2 + 1]);
                }
            }
            assert forall|i1: int, i2: int| 0 <= i1 < i2 < a.len() implies a[i1].id != a[i2].id by {
                if i1 >= head {
                    assert(a[i1] == a1[i1 - head] && a[i2] == a1[i2 - head]);
                } else {
                    assert(a[i1].id == s[0].id);
                    assert(a[i2] == a1[i2 - head]);
                    assert(advanced_src(s.skip(1), a1[i2 - head]));
                    let i0 = choose|i0: int|
                        0 <= i0 < s.skip(1).len() && #[trigger] s.skip(1)[i0].id == a1[i2
                            - head].id && s.skip(1)[i0].col == a1[i2 - head].col
                            && s.skip(1)[i0].row == a1[i2 - head].row && s.skip(1)[i0].value
                            == a1[i2 - head].value && (a1[i2 - head] == s.skip(1)[i0] || a1[i2
                            - head].phase is PendingRemoval);
                    assert(s.skip(1)[i0] == s[i0 + 1]);
                }
            }
        }
    }
}

/// The despawn scheduler preserves well-formedness.
pub proof fn lemma_advance_wf(m: Model, e: u64)
    requires
        wf(m),
    ensures
        wf(spec_advance(m, e)),
{
    let m2 = spec_advance(m, e);
    lemma_advanced_retiring(m.retiring, e);
    assert forall|q: int| 0 <= q < m2.grid.len() implies #[trigger] cell_ok(m2, q) by {
        assert(cell_ok(m, q));
    }
    assert forall|i: int| 0 <= i < m2.retiring.len() implies #[trigger] retiring_ok(m2, i) by {
        assert(advanced_src(m.retiring, m2.retiring[i]));
        let i0 = choose|i0: int|
            0 <= i0 < m.retiring.len() && #[trigger] m.retiring[i0].id == m2.retiring[i].id
                && m.retiring[i0].col == m2.retiring[i].col && m.retiring[i0].row
                == m2.retiring[i].row && m.retiring[i0].value == m2.retiring[i].value && (
            m2.retiring[i] == m.retiring[i0] || m2.retiring[i].phase is PendingRemoval);
        assert(retiring_ok(m, i0));
    }
    assert forall|p: int, i: int|
        0 <= p < m2.grid.len() && 0 <= i < m2.retiring.len() && #[trigger] m2.grid[p] is Some
        implies m2.grid[p]->Some_0.id != #[trigger] m2.retiring[i].id by {
        assert(advanced_src(m.retiring, m2.retiring[i]));
        let i0 = choose|i0: int|
            0 <= i0 < m.retiring.len() && #[trigger] m.retiring[i0].id == m2.retiring[i].id
                && m.retiring[i0].col == m2.retiring[i].col && m.retiring[i0].row
                == m2.retiring[i].row && m.retiring[i0].value == m2.retiring[i].value && (
            m2.retiring[i] == m.retiring[i0] || m2.retiring[i].phase is PendingRemoval);
    }
    assert(wf(m2));
}

/// Acknowledging a tile's animation preserves well-formedness.
pub proof fn lemma_clear_phase_wf(m: Model, id: u64)
    requires
        wf(m),
    ensures
        wf(spec_clear_phase(m, id)),
{
    let m2 = spec_clear_phase(m, id);
    assert forall|q: int| 0 <= q < m2.grid.len() implies #[trigger] cell_ok(m2, q) by {
        assert(cell_ok(m, q));
    }
    assert forall|p1: int, p2: int|
        0 <= p1 < p2 < m2.grid.len() && #[trigger] m2.grid[p1] is Some
            && #[trigger] m2.grid[p2] is Some
        implies m2.grid[p1]->Some_0.id != m2.grid[p2]->Some_0.id by {
        assert(m.grid[p1] is Some && m.grid[p2] is Some);
        assert(m2.grid[p1]->Some_0.id == m.grid[p1]->Some_0.id);
        assert(m2.grid[p2]->Some_0.id == m.grid[p2]->Some_0.id);
    }
    assert forall|p: int, i: int|
        0 <= p < m2.grid.len() && 0 <= i < m2.retiring.len() && #[trigger] m2.grid[p] is Some
        implies m2.grid[p]->Some_0.id != #[trigger] m2.retiring[i].id by {
        assert(m.grid[p] is Some);
        assert(m2.grid[p]->Some_0.id == m.grid[p]->Some_0.id);
    }
    assert forall|i: int| 0 <= i < m2.retiring.len() implies #[trigger] retiring_ok(m2, i) by {
        assert(retiring_ok(m, i));
    }
    assert(wf(m2));
}

/// Placing a tile preserves well-formedness.
pub proof fn lemma_place_wf(m: Model, col: int, row: int, v: u32)
    requires
        wf(m),
    ensures
        wf(spec_place(m, col, row, v)),
{
    if can_place(m, col, row, v) {
        let n = m.n;
        let p = row * n + col;
        let m2 = spec_place(m, col, row, v);
        lemma_cell_decomp(n, col, row);
        assert(0 <= row * n + col < n * n) by (nonlinear_arith)
            requires
                0 <= col < n,
                0 <= row < n,
        ;
        assert(0 <= p < n * n);
        assert forall|q: int| 0 <= q < m2.grid.len() implies #[trigger] cell_ok(m2, q) by {
            if q != p {
                assert(m2.grid[q] == m.grid[q]);
                assert(cell_ok(m, q));
            }
        }
        assert forall|p1: int, p2: int|
            0 <= p1 < p2 < m2.grid.len() && #[trigger] m2.grid[p1] is Some
                && #[trigger] m2.grid[p2] is Some
            implies m2.grid[p1]->Some_0.id != m2.grid[p2]->Some_0.id by {
            if p1 != p && p2 != p {
                assert(m2.grid[p1] == m.grid[p1] && m2.grid[p2] == m.grid[p2]);
            } else if p1 == p {
                assert(m2.grid[p2] == m.grid[p2] && cell_ok(m, p2));
            } else {
                assert(m2.grid[p1] == m.grid[p1] && cell_ok(m, p1));
            }
        }
        assert forall|i: int| 0 <= i < m2.retiring.len() implies #[trigger] retiring_ok(m2, i) by {
            assert(retiring_ok(m, i));
        }
        assert forall|q: int, i: int|
            0 <= q < m2.grid.len() && 0 <= i < m2.retiring.len() && #[trigger] m2.grid[q] is Some
            implies m2.grid[q]->Some_0.id != #[trigger] m2.retiring[i].id by {
            assert(retiring_ok(m, i));
            if q != p {
                assert(m2.grid[q] == m.grid[q]);
            }
        }
        assert(wf(m2));
    }
}

/// A fresh engine state is well-formed.
pub proof fn lemma_new_wf(n: int, seed: u64)
    requires
        2 <= n <= MAX_SIDE,
    ensures
        wf(spec_new(n, seed)),
{
    let m = spec_new(n, seed);
    assert(n * n >= 4) by (nonlinear_arith)
        requires
            n >= 2,
    ;
    assert forall|q: int| 0 <= q < m.grid.len() implies #[trigger] cell_ok(m, q) by {}
    assert(wf(m));
}

} // verus!
