//! The board state-transition engine.
//!
//! `Engine` owns the grid, the tile identities, the retiring tiles and the
//! random-number generator.  Every operation's contract pins the new state to
//! the corresponding model function of `crate::model`, so the engine behaves
//! as a mathematical function of its seed and its commands.

use vstd::prelude::*;
use vstd::pervasive::VecAdditionalExecFns;
use vstd::arithmetic::mul::lemma_mul_upper_bound;
use crate::tile::{Tile, AnimationPhase, Direction, Command, BASE_VALUE, DESPAWN_DELAY_MS};
use crate::geom::{MAX_SIDE, cell_index, flat_index, line_of, off_of, line_idx};
use crate::geom::{lemma_line_geom, lemma_idx_geom};
use crate::line::{MergeSlot, merge_slots, merge_line};
use crate::model::{Model, opt_id, wf, spec_new, spec_resolve, spec_changed, resolved_cell};
use crate::model::{line_tiles, line_tiles_upto, retired_upto, slots_retired, retired_tile};
use crate::model::finalize;
use crate::model::{lemma_new_wf, lemma_resolve_wf, lemma_line_tiles_upto, lemma_slots_retired_push};
use crate::model::{empties, empties_upto, spec_spawn_if, spawn_cell, spec_new_tile};
use crate::model::{lemma_spawn_wf, lemma_empties_upto, dir_any};
use crate::model::{spec_reset, reset_first, reset_second, lemma_reset_wf};
use crate::model::{spec_advance, advanced_retiring, lemma_advance_wf};
use crate::model::{spec_clear_phase, cleared_tile, grid_has_id, lemma_clear_phase_wf};
use crate::model::{spec_animations, anim_tiles_upto, live_tiles, live_tiles_upto};
use crate::model::{spec_place, can_place, lemma_place_wf};
use crate::model::{spec_command, spec_run, spec_tick, has_reset, lemma_spec_run_snoc};
use crate::rng::{wy_step, wy_out};
use crate::line::lemma_merge_slots_structure;

verus! {

/// The rule engine of the sliding-tile merge puzzle: an `n` x `n` board of
/// numbered tiles with stable identities, moved and merged by directional
/// commands, refilled by a seeded random spawner, and exposing per-tile
/// animation phases to a renderer.
pub struct Engine {
    n: usize,
    grid: Vec<Option<Tile>>,
    retiring: Vec<Tile>,
    next_id: u64,
    rng: u64,
}

impl View for Engine {
    type V = Model;

    closed spec fn view(&self) -> Model {
        Model {
            n: self.n as int,
            grid: self.grid@,
            retiring: self.retiring@,
            next_id: self.next_id,
            rng: self.rng,
        }
    }
}

impl Engine {
    /// The engine's invariant: see `crate::model::wf`.
    pub open spec fn wf(&self) -> bool {
        wf(self@)
    }

    /// A fresh engine with an empty board of side `n`, seeded with `seed`.
    /// Call `reset` to place the two opening tiles.
    pub fn new(n: usize, seed: u64) -> (e: Engine)
        requires
            2 <= n <= MAX_SIDE,
        ensures
            e.wf(),
            e@ == spec_new(n as int, seed),
    {
        proof {
            lemma_mul_upper_bound(n as int, MAX_SIDE as int, n as int, MAX_SIDE as int);
        }
        let nn = n * n;
        let mut grid: Vec<Option<Tile>> = Vec::new();
        let mut i: usize = 0;
        while i < nn
            invariant
                i <= nn,
                grid@.len() == i as int,
                forall|p: int| 0 <= p < i as int ==> #[trigger] grid@[p] is None,
            decreases nn - i,
        {
            grid.push(None);
            i = i + 1;
        }
        let e = Engine { n, grid, retiring: Vec::new(), next_id: 0, rng: seed };
        proof {
            lemma_new_wf(n as int, seed);
            assert(e@.grid =~= spec_new(n as int, seed).grid);
            assert(e@.retiring =~= spec_new(n as int, seed).retiring);
            assert(e@ =~= spec_new(n as int, seed));
        }
        e
    }

    /// The board's side length.
    pub fn side(&self) -> (r: usize)
        ensures
            r as int == self@.n,
    {
        self.n
    }

    /// Slide-and-merge in direction `dir` (the spawn step is separate, see
    /// `spawn_if`).  Along each movement line the tiles pack against the wall
    /// in their previous order; scanning from the wall, each wall-most pair
    /// of equal tiles merges once into the tile nearer the wall, which
    /// doubles and is tagged `MergingInto`; the absorbed tile moves to the
    /// retiring list at its target's cell; every other tile that changed
    /// cells is tagged `Moving`.  Returns whether the board changed.
    pub fn resolve(&mut self, dir: Direction) -> (changed: bool)
        requires
            old(self).wf(),
        ensures
            final(self).wf(),
            final(self)@ == spec_resolve(old(self)@, dir),
            changed == spec_changed(old(self)@, dir),
    {
        let ghost m0 = old(self)@;
        let ghost g = old(self)@.grid;
        let ghost ni = old(self)@.n;
        let n = self.n;
        proof {
            lemma_mul_upper_bound(n as int, MAX_SIDE as int, n as int, MAX_SIDE as int);
        }
        let nn = n * n;
        let mut new_grid: Vec<Option<Tile>> = Vec::new();
        let mut i: usize = 0;
        while i < nn
            invariant
                i <= nn,
                new_grid@.len() == i as int,
                forall|p: int| 0 <= p < i as int ==> #[trigger] new_grid@[p] is None,
            decreases nn - i,
        {
            new_grid.push(None);
            i = i + 1;
        }
        let mut retired: Vec<Tile> = Vec::new();
        let mut k: usize = 0;
        while k < n
            invariant
                self.wf(),
                self@ == m0,
                g == m0.grid,
                ni == m0.n,
                n == self.n,
                nn == n * n,
                k <= n,
                new_grid@.len() == ni * ni,
                forall|p: int|
                    0 <= p < ni * ni ==> #[trigger] new_grid@[p] == (if line_of(ni, dir, p)
                        < k as int {
                        resolved_cell(g, ni, dir, p)
                    } else {
                        None::<Tile>
                    }),
                retired@ == retired_upto(g, ni, dir, k as int),
            decreases n - k,
        {
            let ghost kk = k as int;
            let mut buf: Vec<Tile> = Vec::new();
            let mut mi: usize = 0;
            while mi < n
                invariant
                    self.wf(),
                    self@ == m0,
                    g == m0.grid,
                    ni == m0.n,
                    n == self.n,
                    k < n,
                    kk == k as int,
                    mi <= n,
                    buf@ == line_tiles_upto(g, ni, dir, kk, mi as int),
                decreases n - mi,
            {
                let p = cell_index(n, dir, k, mi);
                match self.grid[p] {
                    Some(t) => buf.push(t),
                    None => {},
                }
                proof {
                    assert(buf@ =~= line_tiles_upto(g, ni, dir, kk, mi as int + 1));
                }
                mi = mi + 1;
            }
            let slots = merge_line(&buf);
            proof {
                lemma_line_tiles_upto(g, ni, dir, kk, ni);
                lemma_merge_slots_structure(line_tiles(g, ni, dir, kk));
                assert(buf@ == line_tiles(g, ni, dir, kk));
                assert(slots@.len() <= ni);
                assert(merge_slots(line_tiles(g, ni, dir, kk)).take(0)
                    =~= Seq::<MergeSlot>::empty());
            }
            let ghost ps = merge_slots(line_tiles(g, ni, dir, kk));
            let mut j: usize = 0;
            while j < slots.len()
                invariant
                    self.wf(),
                    self@ == m0,
                    g == m0.grid,
                    ni == m0.n,
                    n == self.n,
                    k < n,
                    kk == k as int,
                    j <= slots.len(),
                    slots@ == ps,
                    ps == merge_slots(line_tiles(g, ni, dir, kk)),
                    ps.len() <= ni,
                    new_grid@.len() == ni * ni,
                    forall|p: int|
                        0 <= p < ni * ni ==> #[trigger] new_grid@[p] == (if line_of(ni, dir, p)
                            < kk {
                            resolved_cell(g, ni, dir, p)
                        } else if line_of(ni, dir, p) == kk && 0 <= off_of(ni, dir, p)
                            < j as int {
                            resolved_cell(g, ni, dir, p)
                        } else {
                            None::<Tile>
                        }),
                    retired@ == retired_upto(g, ni, dir, kk) + slots_retired(
                        ps.take(j as int),
                        ni,
                        dir,
                        kk,
                        0,
                    ),
                decreases slots.len() - j,
            {
                let ghost jj = j as int;
                let p = cell_index(n, dir, k, j);
                let slot = slots[j];
                let c = p % n;
                let r = p / n;
                let phase = if slot.absorbed.is_some() {
                    AnimationPhase::MergingInto
                } else if slot.out.col != c || slot.out.row != r {
                    AnimationPhase::Moving
                } else {
                    slot.out.phase
                };
                let t = Tile { id: slot.out.id, value: slot.out.value, col: c, row: r, phase };
                new_grid.set(p, Some(t));
                match slot.absorbed {
                    Some(a) => {
                        retired.push(
                            Tile {
                                id: a.id,
                                value: a.value,
                                col: c,
                                row: r,
                                phase: AnimationPhase::PendingRemoval(DESPAWN_DELAY_MS),
                            },
                        );
                    },
                    None => {},
                }
                proof {
                    lemma_line_geom(ni, dir, kk, jj);
                    assert(line_of(ni, dir, p as int) == kk && off_of(ni, dir, p as int) == jj);
                    assert(t == finalize(ps[jj], ni, p as int));
                    assert(new_grid@[p as int] == resolved_cell(g, ni, dir, p as int));
                    assert(ps.take(jj + 1) =~= ps.take(jj).push(ps[jj]));
                    lemma_slots_retired_push(ps.take(jj), ps[jj], ni, dir, kk, 0);
                    match ps[jj].absorbed {
                        Some(a) => {
                            assert(retired@.last() == retired_tile(a, ni, dir, kk, jj));
                            assert(retired@ =~= retired_upto(g, ni, dir, kk) + slots_retired(
                                ps.take(jj + 1),
                                ni,
                                dir,
                                kk,
                                0,
                            ));
                        },
                        None => {
                            assert(retired@ =~= retired_upto(g, ni, dir, kk) + slots_retired(
                                ps.take(jj + 1),
                                ni,
                                dir,
                                kk,
                                0,
                            ));
                        },
                    }
                    assert forall|q: int| 0 <= q < ni * ni implies new_grid@[q] == (if line_of(
                        ni,
                        dir,
                        q,
                    ) < kk {
                        resolved_cell(g, ni, dir, q)
                    } else if line_of(ni, dir, q) == kk && 0 <= off_of(ni, dir, q) < jj + 1 {
                        resolved_cell(g, ni, dir, q)
                    } else {
                        None::<Tile>
                    }) by {
                        lemma_idx_geom(ni, dir, q);
                    }
                }
                j = j + 1;
            }
            proof {
                assert(ps.take(ps.len() as int) =~= ps);
                assert forall|p: int| 0 <= p < ni * ni implies new_grid@[p] == (if line_of(
                    ni,
                    dir,
                    p,
                ) < kk + 1 {
                    resolved_cell(g, ni, dir, p)
                } else {
                    None::<Tile>
                }) by {
                    lemma_idx_geom(ni, dir, p);
                }
                assert(retired@ =~= retired_upto(g, ni, dir, kk + 1));
            }
            k = k + 1;
        }
        proof {
            assert forall|p: int| 0 <= p < ni * ni implies #[trigger] new_grid@[p]
                == resolved_cell(g, ni, dir, p) by {
                lemma_idx_geom(ni, dir, p);
            }
        }
        let mut changed = false;
        let mut q: usize = 0;
        while q < nn
            invariant
                self.wf(),
                self@ == m0,
                g == m0.grid,
                ni == m0.n,
                n == self.n,
                nn == n * n,
                q <= nn,
                new_grid@.len() == ni * ni,
                forall|p: int|
                    0 <= p < ni * ni ==> #[trigger] new_grid@[p] == resolved_cell(g, ni, dir, p),
                changed == (exists|p: int|
                    0 <= p < q as int && opt_id(g[p]) != opt_id(
                        #[trigger] resolved_cell(g, ni, dir, p),
                    )),
            decreases nn - q,
        {
            let a = self.grid[q];
            let b = new_grid[q];
            let d = match (a, b) {
                (Some(x), Some(y)) => x.id != y.id,
                (None, None) => false,
                _ => true,
            };
            proof {
                assert(d == (opt_id(g[q as int]) != opt_id(resolved_cell(g, ni, dir, q as int))));
            }
            if d {
                changed = true;
            }
            q = q + 1;
        }
        self.grid = new_grid;
        self.retiring.append(&mut retired);
        proof {
            lemma_resolve_wf(m0, dir);
            assert(self@.grid =~= spec_resolve(m0, dir).grid);
            assert(self@.retiring =~= spec_resolve(m0, dir).retiring);
            assert(self@ =~= spec_resolve(m0, dir));
            assert(changed == spec_changed(m0, dir));
        }
        changed
    }

    /// The one tile-creation routine, shared by the spawn selector and the
    /// reset controller: a base-value tile in phase `Spawning`.
    fn new_tile(id: u64, col: usize, row: usize) -> (t: Tile)
        ensures
            t == (Tile { id, value: BASE_VALUE, col, row, phase: AnimationPhase::Spawning }),
    {
        Tile { id, value: BASE_VALUE, col, row, phase: AnimationPhase::Spawning }
    }

    /// The spawn selector: if `changed` (the preceding move changed the
    /// board), pick one empty cell uniformly at random and create a fresh
    /// base-value tile there, phase `Spawning`.  On a full board, or when
    /// `changed` is false, do nothing — a full board is not a game-over
    /// determination.
    pub fn spawn_if(&mut self, changed: bool)
        requires
            old(self).wf(),
        ensures
            final(self).wf(),
            final(self)@ == spec_spawn_if(old(self)@, changed),
    {
        let ghost m0 = old(self)@;
        proof {
            lemma_spawn_wf(m0, changed);
        }
        if !changed {
            return ;
        }
        let n = self.n;
        proof {
            lemma_mul_upper_bound(n as int, MAX_SIDE as int, n as int, MAX_SIDE as int);
        }
        let nn = n * n;
        let mut empty_cells: Vec<usize> = Vec::new();
        let mut p: usize = 0;
        while p < nn
            invariant
                self.wf(),
                self@ == m0,
                n == self.n,
                nn == n * n,
                nn as int == m0.n * m0.n,
                p <= nn,
                empty_cells@.len() == empties_upto(m0.grid, p as int).len(),
                forall|i: int|
                    0 <= i < empty_cells@.len() ==> empty_cells@[i] as int == #[trigger] empties_upto(
                        m0.grid,
                        p as int,
                    )[i],
            decreases nn - p,
        {
            let ghost pp = p as int;
            match self.grid[p] {
                None => {
                    empty_cells.push(p);
                },
                Some(_) => {},
            }
            proof {
                let e0 = empties_upto(m0.grid, pp);
                let e1 = empties_upto(m0.grid, pp + 1);
                if m0.grid[pp] is None {
                    assert(e1 =~= e0 + seq![pp]);
                } else {
                    assert(e1 =~= e0);
                }
                assert forall|i: int| 0 <= i < empty_cells@.len() implies empty_cells@[i] as int
                    == #[trigger] e1[i] by {
                    if i < e0.len() {
                        assert(e1[i] == e0[i]);
                    }
                }
            }
            p = p + 1;
        }
        proof {
            assert(empties(m0.grid) == empties_upto(m0.grid, m0.grid.len() as int));
            assert(empty_cells@.len() == empties(m0.grid).len());
        }
        if empty_cells.len() == 0 {
            return ;
        }
        if self.next_id == u64::MAX {
            return ;
        }
        let draw = wy_step(self.rng);
        let len64 = empty_cells.len() as u64;
        let ridx = (draw.1 % len64) as usize;
        let cell = empty_cells[ridx];
        proof {
            lemma_empties_upto(m0.grid, m0.grid.len() as int);
            assert(empty_cells@[ridx as int] as int == empties(m0.grid)[ridx as int]);
            assert(0 <= empties(m0.grid)[ridx as int] < m0.grid.len());
            assert(ridx as int == (wy_out(m0.rng) as int) % (empties(m0.grid).len() as int));
            assert(cell as int == spawn_cell(m0));
            lemma_idx_geom(m0.n, dir_any(), cell as int);
        }
        let col = cell % n;
        let row = cell / n;
        let t = Self::new_tile(self.next_id, col, row);
        self.grid.set(cell, Some(t));
        self.next_id = self.next_id + 1;
        self.rng = draw.0;
        proof {
            assert(t == spec_new_tile(m0.next_id, m0.n, spawn_cell(m0)));
            assert(self@.grid =~= spec_spawn_if(m0, changed).grid);
            assert(self@ =~= spec_spawn_if(m0, changed));
        }
    }

    /// One fully resolved move command: slide and merge in `dir`, then spawn
    /// one tile if and only if the board changed.  Returns whether it did.
    pub fn apply_move(&mut self, dir: Direction) -> (changed: bool)
        requires
            old(self).wf(),
        ensures
            final(self).wf(),
            final(self)@ == spec_command(old(self)@, Command::Move(dir)),
            changed == spec_changed(old(self)@, dir),
    {
        let changed = self.resolve(dir);
        self.spawn_if(changed);
        changed
    }

    /// The reset controller: destroy every tile immediately (the retiring
    /// list included, so a renderer never sees a stale id), restart the
    /// identities, and seed two base-value tiles at two distinct cells chosen
    /// uniformly at random without replacement.
    pub fn reset(&mut self)
        requires
            old(self).wf(),
        ensures
            final(self).wf(),
            final(self)@ == spec_reset(old(self)@),
    {
        let ghost m0 = old(self)@;
        let n = self.n;
        proof {
            lemma_mul_upper_bound(n as int, MAX_SIDE as int, n as int, MAX_SIDE as int);
            lemma_reset_wf(m0);
            assert(n * n >= 4) by (nonlinear_arith)
                requires
                    n >= 2,
            ;
        }
        let nn = n * n;
        let mut grid: Vec<Option<Tile>> = Vec::new();
        let mut i: usize = 0;
        while i < nn
            invariant
                i <= nn,
                grid@.len() == i as int,
                forall|p: int| 0 <= p < i as int ==> #[trigger] grid@[p] is None,
            decreases nn - i,
        {
            grid.push(None);
            i = i + 1;
        }
        let draw1 = wy_step(self.rng);
        let p1 = (draw1.1 % (nn as u64)) as usize;
        let draw2 = wy_step(draw1.0);
        let q = (draw2.1 % ((nn - 1) as u64)) as usize;
        let p2 = if q >= p1 {
            q + 1
        } else {
            q
        };
        proof {
            assert(p1 as int == reset_first(m0));
            assert(p2 as int == reset_second(m0));
            lemma_idx_geom(m0.n, dir_any(), p1 as int);
            lemma_idx_geom(m0.n, dir_any(), p2 as int);
        }
        let t1 = Self::new_tile(0, p1 % n, p1 / n);
        let t2 = Self::new_tile(1, p2 % n, p2 / n);
        grid.set(p1, Some(t1));
        grid.set(p2, Some(t2));
        self.grid = grid;
        self.retiring = Vec::new();
        self.next_id = 2;
        self.rng = draw2.0;
        proof {
            assert(self@.grid =~= spec_reset(m0).grid);
            assert(self@.retiring =~= spec_reset(m0).retiring);
            assert(self@ =~= spec_reset(m0));
        }
    }

    /// The despawn scheduler: decrease every pending-removal countdown by
    /// `elapsed` milliseconds and destroy the tiles whose countdown ran out.
    pub fn advance(&mut self, elapsed: u64)
        requires
            old(self).wf(),
        ensures
            final(self).wf(),
            final(self)@ == spec_advance(old(self)@, elapsed),
    {
        let ghost m0 = old(self)@;
        proof {
            lemma_advance_wf(m0, elapsed);
        }
        let mut kept: Vec<Tile> = Vec::new();
        let mut i: usize = 0;
        proof {
            assert(m0.retiring.skip(0) =~= m0.retiring);
            assert(kept@ + advanced_retiring(m0.retiring.skip(0), elapsed) =~= advanced_retiring(
                m0.retiring,
                elapsed,
            ));
        }
        while i < self.retiring.len()
            invariant
                self.wf(),
                self@ == m0,
                i <= self@.retiring.len(),
                advanced_retiring(m0.retiring, elapsed) == kept@ + advanced_retiring(
                    m0.retiring.skip(i as int),
                    elapsed,
                ),
            decreases self@.retiring.len() - i,
        {
            let ghost prev = kept@;
            let ghost rest = m0.retiring.skip(i as int);
            assert(rest[0] == m0.retiring[i as int]);
            let t = self.retiring[i];
            match t.phase {
                AnimationPhase::PendingRemoval(rem) => {
                    if rem > elapsed {
                        kept.push(
                            Tile {
                                id: t.id,
                                value: t.value,
                                col: t.col,
                                row: t.row,
                                phase: AnimationPhase::PendingRemoval(rem - elapsed),
                            },
                        );
                    }
                },
                _ => {
                    kept.push(t);
                },
            }
            proof {
                assert(rest.skip(1) =~= m0.retiring.skip(i as int + 1));
                assert(prev + advanced_retiring(rest, elapsed) =~= kept@ + advanced_retiring(
                    m0.retiring.skip(i as int + 1),
                    elapsed,
                ));
            }
            i = i + 1;
        }
        proof {
            assert(m0.retiring.skip(m0.retiring.len() as int) =~= Seq::<Tile>::empty());
            assert(kept@ =~= advanced_retiring(m0.retiring, elapsed));
        }
        self.retiring = kept;
        proof {
            assert(self@ =~= spec_advance(m0, elapsed));
        }
    }

    /// A renderer's acknowledgement for tile `id`: the transient phases
    /// `Moving`, `Spawning` and `MergingInto` return to `Idle` — the only way
    /// those phases end.  Returns whether a live tile with that id exists.
    pub fn clear_phase(&mut self, id: u64) -> (found: bool)
        requires
            old(self).wf(),
        ensures
            final(self).wf(),
            final(self)@ == spec_clear_phase(old(self)@, id),
            found == grid_has_id(old(self)@.grid, id),
    {
        let ghost m0 = old(self)@;
        proof {
            lemma_clear_phase_wf(m0, id);
        }
        let n = self.n;
        proof {
            lemma_mul_upper_bound(n as int, MAX_SIDE as int, n as int, MAX_SIDE as int);
        }
        let nn = n * n;
        let mut found = false;
        let mut p: usize = 0;
        while p < nn
            invariant
                n == self.n,
                nn == n * n,
                nn as int == m0.n * m0.n,
                p <= nn,
                self@.n == m0.n,
                self@.retiring == m0.retiring,
                self@.next_id == m0.next_id,
                self@.rng == m0.rng,
                self@.grid.len() == m0.grid.len(),
                m0.grid.len() == nn as int,
                forall|q: int|
                    0 <= q < p as int ==> #[trigger] self@.grid[q] == (match m0.grid[q] {
                        Some(t) => Some(cleared_tile(t, id)),
                        None => None::<Tile>,
                    }),
                forall|q: int| p as int <= q < nn as int ==> #[trigger] self@.grid[q] == m0.grid[q],
                found == (exists|q: int|
                    0 <= q < p as int && opt_id(#[trigger] m0.grid[q]) == Some(id)),
            decreases nn - p,
        {
            let ghost pp = p as int;
            match self.grid[p] {
                Some(t) => {
                    if t.id == id {
                        found = true;
                        let transient = match t.phase {
                            AnimationPhase::Moving => true,
                            AnimationPhase::Spawning => true,
                            AnimationPhase::MergingInto => true,
                            _ => false,
                        };
                        if transient {
                            self.grid.set(
                                p,
                                Some(
                                    Tile {
                                        id: t.id,
                                        value: t.value,
                                        col: t.col,
                                        row: t.row,
                                        phase: AnimationPhase::Idle,
                                    },
                                ),
                            );
                        }
                    }
                },
                None => {},
            }
            proof {
                assert(self@.grid[pp] == (match m0.grid[pp] {
                    Some(t) => Some(cleared_tile(t, id)),
                    None => None::<Tile>,
                }));
            }
            p = p + 1;
        }
        proof {
            assert(self@.grid =~= spec_clear_phase(m0, id).grid);
            assert(self@ =~= spec_clear_phase(m0, id));
        }
        found
    }

    /// Everything a renderer consumes after a command: every tile whose phase
    /// is not `Idle` (the live ones in cell order, then the retiring ones),
    /// each with its id, value, phase, and destination cell.
    pub fn animations(&self) -> (r: Vec<Tile>)
        requires
            self.wf(),
        ensures
            r@ == spec_animations(self@),
    {
        let n = self.n;
        proof {
            lemma_mul_upper_bound(n as int, MAX_SIDE as int, n as int, MAX_SIDE as int);
        }
        let nn = n * n;
        let mut out: Vec<Tile> = Vec::new();
        let mut p: usize = 0;
        while p < nn
            invariant
                self.wf(),
                n == self.n,
                nn == n * n,
                nn as int == self@.n * self@.n,
                p <= nn,
                out@ == anim_tiles_upto(self@.grid, p as int),
            decreases nn - p,
        {
            let ghost pp = p as int;
            match self.grid[p] {
                Some(t) => {
                    let idle = match t.phase {
                        AnimationPhase::Idle => true,
                        _ => false,
                    };
                    if !idle {
                        out.push(t);
                    }
                },
                None => {},
            }
            proof {
                assert(out@ =~= anim_tiles_upto(self@.grid, pp + 1));
            }
            p = p + 1;
        }
        let mut i: usize = 0;
        proof {
            assert(self@.retiring.take(0) =~= Seq::<Tile>::empty());
            assert(out@ =~= anim_tiles_upto(self@.grid, self@.grid.len() as int)
                + self@.retiring.take(0));
        }
        while i < self.retiring.len()
            invariant
                self.wf(),
                i <= self@.retiring.len(),
                out@ == anim_tiles_upto(self@.grid, self@.grid.len() as int) + self@.retiring.take(
                    i as int,
                ),
            decreases self@.retiring.len() - i,
        {
            out.push(self.retiring[i]);
            proof {
                assert(self@.retiring.take(i as int + 1) =~= self@.retiring.take(i as int).push(
                    self@.retiring[i as int],
                ));
                assert(out@ =~= anim_tiles_upto(self@.grid, self@.grid.len() as int)
                    + self@.retiring.take(i as int + 1));
            }
            i = i + 1;
        }
        proof {
            assert(self@.retiring.take(self@.retiring.len() as int) =~= self@.retiring);
            assert(out@ =~= spec_animations(self@));
        }
        out
    }

    /// All live tiles, in cell order.
    pub fn tiles(&self) -> (r: Vec<Tile>)
        requires
            self.wf(),
        ensures
            r@ == live_tiles(self@.grid),
    {
        let n = self.n;
        proof {
            lemma_mul_upper_bound(n as int, MAX_SIDE as int, n as int, MAX_SIDE as int);
        }
        let nn = n * n;
        let mut out: Vec<Tile> = Vec::new();
        let mut p: usize = 0;
        while p < nn
            invariant
                self.wf(),
                n == self.n,
                nn == n * n,
                nn as int == self@.n * self@.n,
                p <= nn,
                out@ == live_tiles_upto(self@.grid, p as int),
            decreases nn - p,
        {
            let ghost pp = p as int;
            match self.grid[p] {
                Some(t) => {
                    out.push(t);
                },
                None => {},
            }
            proof {
                assert(out@ =~= live_tiles_upto(self@.grid, pp + 1));
            }
            p = p + 1;
        }
        out
    }

    /// The retiring tiles (phase `PendingRemoval`), oldest first.
    pub fn retiring_tiles(&self) -> (r: Vec<Tile>)
        requires
            self.wf(),
        ensures
            r@ == self@.retiring,
    {
        let mut out: Vec<Tile> = Vec::new();
        let mut i: usize = 0;
        while i < self.retiring.len()
            invariant
                i <= self@.retiring.len(),
                out@ == self@.retiring.take(i as int),
            decreases self@.retiring.len() - i,
        {
            out.push(self.retiring[i]);
            proof {
                assert(self@.retiring.take(i as int + 1) =~= self@.retiring.take(i as int).push(
                    self@.retiring[i as int],
                ));
            }
            i = i + 1;
        }
        proof {
            assert(self@.retiring.take(self@.retiring.len() as int) =~= self@.retiring);
        }
        out
    }

    /// Places a tile of value `value` on the empty cell `(col, row)`, phase
    /// `Idle`, and returns its id; returns `None` (and changes nothing) when
    /// the cell is out of bounds or occupied, the value is zero, or the
    /// identities are exhausted.  This is the board-setup hook: positions
    /// built with it go through the same moves as played ones.
    pub fn place(&mut self, col: usize, row: usize, value: u32) -> (placed: Option<u64>)
        requires
            old(self).wf(),
        ensures
            final(self).wf(),
            final(self)@ == spec_place(old(self)@, col as int, row as int, value),
            placed == (if can_place(old(self)@, col as int, row as int, value) {
                Some(old(self)@.next_id)
            } else {
                None::<u64>
            }),
    {
        let ghost m0 = old(self)@;
        proof {
            lemma_place_wf(m0, col as int, row as int, value);
        }
        if col < self.n && row < self.n && value >= 1 && self.next_id < u64::MAX {
            let p = flat_index(self.n, col, row);
            proof {
                assert(self@.grid.len() == m0.n * m0.n);
            }
            match self.grid[p] {
                None => {
                    let id = self.next_id;
                    let t = Tile { id, value, col, row, phase: AnimationPhase::Idle };
                    self.grid.set(p, Some(t));
                    self.next_id = id + 1;
                    proof {
                        assert(can_place(m0, col as int, row as int, value));
                        assert(self@.grid =~= spec_place(m0, col as int, row as int, value).grid);
                        assert(self@ =~= spec_place(m0, col as int, row as int, value));
                    }
                    Some(id)
                },
                Some(_) => {
                    proof {
                        assert(!can_place(m0, col as int, row as int, value));
                    }
                    None
                },
            }
        } else {
            proof {
                assert(!can_place(m0, col as int, row as int, value));
            }
            None
        }
    }

    /// One tick: a reset in the queue supersedes every queued move; otherwise
    /// the moves resolve in arrival order, each fully (slide, merge, spawn)
    /// before the next; then the despawn scheduler advances by the tick's
    /// elapsed milliseconds.
    pub fn tick(&mut self, cmds: &Vec<Command>, elapsed: u64)
        requires
            old(self).wf(),
        ensures
            final(self).wf(),
            final(self)@ == spec_tick(old(self)@, cmds@, elapsed),
    {
        let ghost m0 = old(self)@;
        let mut any_reset = false;
        let mut i: usize = 0;
        while i < cmds.len()
            invariant
                i <= cmds@.len(),
                any_reset == (exists|j: int| 0 <= j < i as int && #[trigger] cmds@[j] is Reset),
            decreases cmds@.len() - i,
        {
            match cmds[i] {
                Command::Reset => {
                    any_reset = true;
                },
                _ => {},
            }
            i = i + 1;
        }
        proof {
            assert(any_reset == has_reset(cmds@));
        }
        if any_reset {
            self.reset();
        } else {
            let mut i: usize = 0;
            proof {
                assert(cmds@.take(0) =~= Seq::<Command>::empty());
            }
            while i < cmds.len()
                invariant
                    self.wf(),
                    i <= cmds@.len(),
                    self@ == spec_run(m0, cmds@.take(i as int)),
                decreases cmds@.len() - i,
            {
                let ghost done = cmds@.take(i as int);
                match cmds[i] {
                    Command::Move(d) => {
                        let changed = self.resolve(d);
                        self.spawn_if(changed);
                    },
                    Command::Reset => {
                        self.reset();
                    },
                }
                proof {
                    lemma_spec_run_snoc(m0, done, cmds@[i as int]);
                    assert(cmds@.take(i as int + 1) =~= done.push(cmds@[i as int]));
                    assert(self@ == spec_command(spec_run(m0, done), cmds@[i as int]));
                }
                i = i + 1;
            }
            proof {
                assert(cmds@.take(cmds@.len() as int) =~= cmds@);
            }
        }
        self.advance(elapsed);
    }

    /// The tile on cell `(col, row)`, or `None` when the cell is empty or out
    /// of bounds.
    pub fn tile_at(&self, col: usize, row: usize) -> (r: Option<Tile>)
        requires
            self.wf(),
        ensures
            col < self@.n && row < self@.n ==> r == self@.grid[row as int * self@.n + col as int],
            !(col < self@.n && row < self@.n) ==> r is None,
    {
        if col < self.n && row < self.n {
            let p = flat_index(self.n, col, row);
            self.grid[p]
        } else {
            None
        }
    }
}

} // verus!
