use merge_puzzle::engine::Engine;
use merge_puzzle::tile::{AnimationPhase, Direction, DESPAWN_DELAY_MS};

fn board_values(e: &Engine) -> Vec<Vec<u32>> {
    let n = e.side();
    (0..n)
        .map(|row| {
            (0..n)
                .map(|col| e.tile_at(col, row).map(|t| t.value).unwrap_or(0))
                .collect()
        })
        .collect()
}

fn board_sum(e: &Engine) -> u64 {
    e.tiles().iter().map(|t| t.value as u64).sum()
}

#[test]
fn new_board_is_empty() {
    let e = Engine::new(4, 12345);
    assert_eq!(e.side(), 4);
    assert_eq!(e.tiles().len(), 0);
    assert_eq!(e.retiring_tiles().len(), 0);
}

#[test]
fn tile_at_out_of_bounds_is_none() {
    let mut e = Engine::new(4, 0);
    e.reset();
    assert!(e.tile_at(4, 0).is_none());
    assert!(e.tile_at(0, 4).is_none());
    assert!(e.tile_at(100, 100).is_none());
}

/// Reset with seed 0 places the two opening tiles at (2, 1) and (0, 1),
/// both of base value 1; the board is empty elsewhere.
#[test]
fn reset_with_seed_zero() {
    let mut e = Engine::new(4, 0);
    e.reset();
    let tiles = e.tiles();
    assert_eq!(tiles.len(), 2);
    let t1 = e.tile_at(2, 1).expect("first seeded tile");
    let t2 = e.tile_at(0, 1).expect("second seeded tile");
    assert_eq!(t1.value, 1);
    assert_eq!(t2.value, 1);
    for row in 0..4 {
        for col in 0..4 {
            if (col, row) != (2, 1) && (col, row) != (0, 1) {
                assert!(e.tile_at(col, row).is_none());
            }
        }
    }
    assert_eq!(e.retiring_tiles().len(), 0);
}

/// Reset invariant: whatever the seed, exactly 2 base-value tiles at two
/// distinct cells.
#[test]
fn reset_invariant_across_seeds() {
    for seed in [1u64, 42, 2024, 0xffff_ffff_ffff_ffff] {
        let mut e = Engine::new(4, seed);
        e.reset();
        let tiles = e.tiles();
        assert_eq!(tiles.len(), 2);
        assert!(tiles.iter().all(|t| t.value == 1));
        assert!((tiles[0].col, tiles[0].row) != (tiles[1].col, tiles[1].row));
        assert_eq!(e.retiring_tiles().len(), 0);
    }
}

/// Row `[2, _, _, 2]`, command `Left`: the pair merges into `[4, _, _, _]`
/// and the move counts as a change.
#[test]
fn far_pair_merges_left() {
    let mut e = Engine::new(4, 7);
    e.place(0, 0, 2).unwrap();
    e.place(3, 0, 2).unwrap();
    let changed = e.resolve(Direction::Left);
    assert!(changed);
    assert_eq!(board_values(&e)[0], vec![4, 0, 0, 0]);
    assert_eq!(e.tiles().len(), 1);
    // the absorbed tile is retiring at its target's cell
    let retiring = e.retiring_tiles();
    assert_eq!(retiring.len(), 1);
    assert_eq!((retiring[0].col, retiring[0].row), (0, 0));
    assert_eq!(retiring[0].phase, AnimationPhase::PendingRemoval(DESPAWN_DELAY_MS));
}

/// After the merge above, the spawn step adds one base tile on a cell that
/// was empty; with seed 7 it lands deterministically on (0, 2).
#[test]
fn spawn_after_change_lands_on_empty_cell() {
    let mut e = Engine::new(4, 7);
    e.place(0, 0, 2).unwrap();
    e.place(3, 0, 2).unwrap();
    let changed = e.apply_move(Direction::Left);
    assert!(changed);
    assert_eq!(e.tiles().len(), 2);
    let spawned = e.tile_at(0, 2).expect("spawned tile");
    assert_eq!(spawned.value, 1);
    assert_eq!(spawned.phase, AnimationPhase::Spawning);
    assert_eq!(e.tile_at(0, 0).unwrap().value, 4);
}

/// Row `[2, 2, 2, _]`, command `Left`: only the wall-most pair merges, and
/// the line re-packs to `[4, 2, _, _]` — the third `2` does not also merge.
#[test]
fn triple_merges_once_and_repacks() {
    let mut e = Engine::new(4, 11);
    e.place(0, 0, 2).unwrap();
    e.place(1, 0, 2).unwrap();
    e.place(2, 0, 2).unwrap();
    let changed = e.resolve(Direction::Left);
    assert!(changed);
    assert_eq!(board_values(&e)[0], vec![4, 2, 0, 0]);
}

/// Fully packed row `[2, 4, 2, 4]`, command `Left`: nothing moves, nothing
/// merges, `changed` is false, and no tile spawns.
#[test]
fn packed_row_is_a_no_op() {
    let mut e = Engine::new(4, 3);
    e.place(0, 0, 2).unwrap();
    e.place(1, 0, 4).unwrap();
    e.place(2, 0, 2).unwrap();
    e.place(3, 0, 4).unwrap();
    let before = board_values(&e);
    let changed = e.apply_move(Direction::Left);
    assert!(!changed);
    assert_eq!(board_values(&e), before);
    assert_eq!(e.tiles().len(), 4);
}

/// Sum conservation: the board total immediately after slide-and-merge
/// equals the total before the command, for every direction.
#[test]
fn sum_conserved_by_resolve() {
    for dir in [Direction::Up, Direction::Down, Direction::Left, Direction::Right] {
        let mut e = Engine::new(4, 5);
        e.place(0, 0, 2).unwrap();
        e.place(3, 0, 2).unwrap();
        e.place(1, 1, 4).unwrap();
        e.place(1, 3, 4).unwrap();
        e.place(2, 2, 8).unwrap();
        let before = board_sum(&e);
        e.resolve(dir);
        assert_eq!(board_sum(&e), before);
    }
}

/// Spawn conservativeness: a tile spawns exactly when the move changed the
/// board.
#[test]
fn spawn_iff_changed() {
    // a pure slide changes the board: one tile spawns
    let mut e = Engine::new(4, 21);
    e.place(3, 3, 2).unwrap();
    assert!(e.apply_move(Direction::Left));
    assert_eq!(e.tiles().len(), 2);
    // repeating the same command once the tile sits at the wall: no change
    // if the spawned tile happens not to move either; build that explicitly
    let mut e2 = Engine::new(4, 21);
    e2.place(0, 0, 2).unwrap();
    assert!(!e2.apply_move(Direction::Left));
    assert_eq!(e2.tiles().len(), 1);
}

/// A spawn attempted on a full board does nothing — and is not a game over.
#[test]
fn spawn_on_full_board_is_noop() {
    let mut e = Engine::new(4, 9);
    let mut v = 1u32;
    for row in 0..4 {
        for col in 0..4 {
            e.place(col, row, v).unwrap();
            v += 3;
        }
    }
    e.spawn_if(true);
    assert_eq!(e.tiles().len(), 16);
}

/// Single merge per command: `[2, 2, 2, 2]` merges as two independent
/// pairs, `[4, 4, _, _]`; no value is doubled twice.
#[test]
fn quadruple_merges_pairwise() {
    let mut e = Engine::new(4, 13);
    for col in 0..4 {
        e.place(col, 0, 2).unwrap();
    }
    let changed = e.resolve(Direction::Left);
    assert!(changed);
    assert_eq!(board_values(&e)[0], vec![4, 4, 0, 0]);
}

/// Bounds invariant: tiles stay on the board through an arbitrary run.
#[test]
fn tiles_stay_in_bounds() {
    let mut e = Engine::new(4, 99);
    e.reset();
    let dirs = [Direction::Left, Direction::Up, Direction::Right, Direction::Down];
    for i in 0..40 {
        e.apply_move(dirs[i % 4]);
        e.advance(16);
        for t in e.tiles().iter().chain(e.retiring_tiles().iter()) {
            assert!(t.col < 4 && t.row < 4);
        }
    }
}

/// Directions map to their walls: `Right` packs against column `n - 1`,
/// `Up` against row `n - 1`, `Down` against row `0`.
#[test]
fn direction_walls() {
    let mut e = Engine::new(4, 17);
    e.place(1, 1, 2).unwrap();
    e.resolve(Direction::Right);
    assert_eq!(e.tile_at(3, 1).unwrap().value, 2);
    e.resolve(Direction::Up);
    assert_eq!(e.tile_at(3, 3).unwrap().value, 2);
    e.resolve(Direction::Down);
    assert_eq!(e.tile_at(3, 0).unwrap().value, 2);
    e.resolve(Direction::Left);
    assert_eq!(e.tile_at(0, 0).unwrap().value, 2);
}

/// The board side is parametric, not fixed to 4.
#[test]
fn parametric_side() {
    let mut e = Engine::new(6, 77);
    e.place(5, 5, 2).unwrap();
    e.place(2, 5, 2).unwrap();
    let changed = e.resolve(Direction::Right);
    assert!(changed);
    assert_eq!(e.tile_at(5, 5).unwrap().value, 4);
    assert_eq!(e.tiles().len(), 1);
}

/// Merges preserve the surviving tile's identity and retire the absorbed
/// tile's identity; ids are never reused while a tile is alive.
#[test]
fn merge_keeps_target_identity() {
    let mut e = Engine::new(4, 31);
    let id_wall = e.place(0, 0, 2).unwrap();
    let id_far = e.place(2, 0, 2).unwrap();
    assert_ne!(id_wall, id_far);
    e.resolve(Direction::Left);
    let survivor = e.tile_at(0, 0).unwrap();
    assert_eq!(survivor.id, id_wall);
    assert_eq!(survivor.value, 4);
    let retiring = e.retiring_tiles();
    assert_eq!(retiring.len(), 1);
    assert_eq!(retiring[0].id, id_far);
}
