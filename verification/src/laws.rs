//! The engine's laws, stated over the model and proved once and for all.
//!
//! Every executable operation of `Engine` pins its result to the model
//! functions these laws speak about, so each law carries over to every run of
//! the engine.

use vstd::prelude::*;
use crate::tile::{Direction, Command, BASE_VALUE};
use crate::geom::lemma_idx_geom;
use crate::model::{Model, wf, cell_ok, spec_resolve, spec_changed, spec_spawn_if, spawn_happens};
use crate::model::{spawn_cell, spec_new_tile, empties, spec_reset, reset_first, reset_second};
use crate::model::{spec_command, spec_run, spec_tick, resolved_src_at, dir_any};
use crate::model::{lemma_resolve_sum, lemma_resolve_packed, lemma_resolved_cell_src};
use crate::model::{lemma_resolve_wf, lemma_spawn_wf, lemma_reset_wf};
use crate::model::{lemma_empties_upto, lemma_unchanged_resolve};
use crate::geom::line_idx;
use crate::sums::grid_sum;

verus! {

/// Sum conservation on merge: for every well-formed board and every
/// direction, the total tile value on the board immediately after
/// slide-and-merge — before the spawn step — equals the total before the
/// command.  A merge folds two equal values into their sum; everything else
/// is only rearranged.
pub proof fn law_sum_conservation(m: Model, dir: Direction)
    requires
        wf(m),
    ensures
        grid_sum(spec_resolve(m, dir).grid, m.n) == grid_sum(m.grid, m.n),
{
    lemma_resolve_sum(m, dir);
}

/// Spawn conservativeness: a spawn occurs if and only if the move changed
/// the board (and an empty cell exists); the spawned tile always has the
/// base value and lands on a cell that was empty just before spawning, and
/// no other cell changes.  The one proviso is that the identity counter is
/// not exhausted, which cannot happen before `u64::MAX` creations since the
/// last reset.
pub proof fn law_spawn_conservative(m: Model, changed: bool)
    requires
        wf(m),
        m.next_id < u64::MAX,
    ensures
        !changed ==> spec_spawn_if(m, changed) == m,
        changed && empties(m.grid).len() == 0 ==> spec_spawn_if(m, changed) == m,
        changed && empties(m.grid).len() > 0 ==> {
            let m2 = spec_spawn_if(m, changed);
            let p = spawn_cell(m);
            &&& 0 <= p < m.grid.len()
            &&& m.grid[p] is None
            &&& m2.grid[p] == Some(spec_new_tile(m.next_id, m.n, p))
            &&& spec_new_tile(m.next_id, m.n, p).value == BASE_VALUE
            &&& forall|q: int|
                0 <= q < m.grid.len() && q != p ==> #[trigger] m2.grid[q] == m.grid[q]
        },
{
    lemma_empties_upto(m.grid, m.grid.len() as int);
    if spawn_happens(m, changed) {
        let es = empties(m.grid);
        assert(0 <= (crate::rng::wy_out(m.rng) as int) % (es.len() as int) < es.len());
    }
}

/// Packing invariant: after a move in a direction, every row or column along
/// that axis has its tiles contiguous against the far wall, with no gap
/// between them and the wall.
pub proof fn law_packing(m: Model, dir: Direction)
    requires
        wf(m),
    ensures
        forall|k: int, m1: int, m2: int|
            0 <= k < m.n && 0 <= m1 < m2 < m.n && #[trigger] spec_resolve(
                m,
                dir,
            ).grid[line_idx(m.n, dir, k, m2)] is Some ==> #[trigger] spec_resolve(
                m,
                dir,
            ).grid[line_idx(m.n, dir, k, m1)] is Some,
{
    lemma_resolve_packed(m, dir);
}

/// Single merge per command: no tile value is doubled more than once within
/// a single resolve.  Every tile on the resolved board descends from exactly
/// one tile of the previous board — same id, in the same movement line —
/// with its value either unchanged or doubled exactly once.
pub proof fn law_single_merge(m: Model, dir: Direction, p: int)
    requires
        wf(m),
        0 <= p < m.grid.len(),
        spec_resolve(m, dir).grid[p] is Some,
    ensures
        exists|q: int| #[trigger] resolved_src_at(m.grid, m.n, dir, p, q),
{
    assert(spec_resolve(m, dir).grid[p] == crate::model::resolved_cell(m.grid, m.n, dir, p));
    lemma_resolved_cell_src(m.grid, m.n, dir, p);
}

/// Reset invariant: after a reset, exactly two tiles exist, each of base
/// value, at two distinct cells drawn from all `n * n` cells; every other
/// cell is empty, and no tile is pending removal.
pub proof fn law_reset(m: Model)
    requires
        wf(m),
    ensures
        ({
            let m2 = spec_reset(m);
            let p1 = reset_first(m);
            let p2 = reset_second(m);
            &&& p1 != p2
            &&& 0 <= p1 < m.n * m.n
            &&& 0 <= p2 < m.n * m.n
            &&& m2.grid[p1] is Some
            &&& m2.grid[p1]->Some_0.value == BASE_VALUE
            &&& m2.grid[p2] is Some
            &&& m2.grid[p2]->Some_0.value == BASE_VALUE
            &&& forall|q: int|
                0 <= q < m2.grid.len() && q != p1 && q != p2 ==> #[trigger] m2.grid[q] is None
            &&& m2.retiring.len() == 0
        }),
{
    lemma_reset_wf(m);
}

/// Bounds invariant: every tile — live or retiring — sits at a cell with
/// `0 <= col < n` and `0 <= row < n`.  Well-formedness is preserved by every
/// operation (see `law_wf_run`), so this holds at all times.
pub proof fn law_bounds(m: Model)
    requires
        wf(m),
    ensures
        forall|p: int|
            0 <= p < m.grid.len() && #[trigger] m.grid[p] is Some ==> m.grid[p]->Some_0.col < m.n
                && m.grid[p]->Some_0.row < m.n,
        forall|i: int|
            0 <= i < m.retiring.len() ==> (#[trigger] m.retiring[i]).col < m.n
                && m.retiring[i].row < m.n,
{
    assert forall|p: int|
        0 <= p < m.grid.len() && #[trigger] m.grid[p] is Some
        implies m.grid[p]->Some_0.col < m.n && m.grid[p]->Some_0.row < m.n by {
        assert(cell_ok(m, p));
        lemma_idx_geom(m.n, dir_any(), p);
    }
    assert forall|i: int|
        0 <= i < m.retiring.len()
        implies (#[trigger] m.retiring[i]).col < m.n && m.retiring[i].row < m.n by {
        assert(crate::model::retiring_ok(m, i));
    }
}

/// Change detection is exact: a move that reports no change is a strict
/// no-op — every cell keeps exactly the tile it held (value and phase
/// included), nothing is retired, and no tile spawns — so the whole command
/// leaves the state untouched.
pub proof fn law_no_op_move(m: Model, dir: Direction)
    requires
        wf(m),
        !spec_changed(m, dir),
    ensures
        spec_command(m, Command::Move(dir)) == m,
{
    lemma_unchanged_resolve(m, dir);
    assert(spec_resolve(m, dir).retiring =~= m.retiring);
    assert(spec_resolve(m, dir) =~= m);
}

/// Well-formedness is preserved by every fully resolved command.
pub proof fn law_wf_command(m: Model, cmd: Command)
    requires
        wf(m),
    ensures
        wf(spec_command(m, cmd)),
{
    match cmd {
        Command::Move(dir) => {
            lemma_resolve_wf(m, dir);
            lemma_spawn_wf(spec_resolve(m, dir), spec_changed(m, dir));
        },
        Command::Reset => {
            lemma_reset_wf(m);
        },
    }
}

/// Well-formedness is preserved by every command sequence.
pub proof fn law_wf_run(m: Model, cmds: Seq<Command>)
    requires
        wf(m),
    ensures
        wf(spec_run(m, cmds)),
    decreases cmds.len(),
{
    if cmds.len() > 0 {
        law_wf_command(m, cmds[0]);
        law_wf_run(spec_command(m, cmds[0]), cmds.skip(1));
    }
}

/// Determinism: two engines in identical states — in particular, two fresh
/// engines with the same side and seed — driven by identical command
/// sequences and tick timings end in identical states.  This is immediate
/// here because every executable operation's contract pins its result to a
/// mathematical function of the previous state alone (`spec_command`,
/// `spec_run`, `spec_tick`); no operation consults anything outside the
/// state.
pub proof fn law_determinism(m1: Model, m2: Model, cmds: Seq<Command>, elapsed: u64)
    requires
        m1 == m2,
    ensures
        spec_run(m1, cmds) == spec_run(m2, cmds),
        spec_tick(m1, cmds, elapsed) == spec_tick(m2, cmds, elapsed),
{
}

} // verus!
