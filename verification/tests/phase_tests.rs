use merge_puzzle::engine::Engine;
use merge_puzzle::tile::{AnimationPhase, Command, Direction, DESPAWN_DELAY_MS};

/// After a command, the renderer sees exactly the non-idle tiles: the merge
/// target tagged `MergingInto`, movers tagged `Moving`, the absorbed tile
/// pending removal — and not the tile that never moved.
#[test]
fn phases_after_a_merge() {
    let mut e = Engine::new(4, 51);
    let id_target = e.place(0, 0, 2).unwrap();
    let id_source = e.place(2, 0, 2).unwrap();
    let id_mover = e.place(3, 2, 9).unwrap();
    let id_still = e.place(0, 3, 7).unwrap();
    let changed = e.resolve(Direction::Left);
    assert!(changed);

    assert_eq!(e.tile_at(0, 0).unwrap().phase, AnimationPhase::MergingInto);
    assert_eq!(e.tile_at(0, 2).unwrap().phase, AnimationPhase::Moving);
    assert_eq!(e.tile_at(0, 3).unwrap().phase, AnimationPhase::Idle);

    let anims = e.animations();
    let ids: Vec<u64> = anims.iter().map(|t| t.id).collect();
    assert!(ids.contains(&id_target));
    assert!(ids.contains(&id_mover));
    assert!(ids.contains(&id_source));
    assert!(!ids.contains(&id_still));
    assert_eq!(anims.len(), 3);
}

/// Acknowledging a tile resets its transient phase to `Idle` — the only way
/// `Moving`, `Spawning` and `MergingInto` end.
#[test]
fn clear_phase_resets_to_idle() {
    let mut e = Engine::new(4, 52);
    let id = e.place(3, 1, 5).unwrap();
    e.resolve(Direction::Left);
    assert_eq!(e.tile_at(0, 1).unwrap().phase, AnimationPhase::Moving);
    assert!(e.clear_phase(id));
    assert_eq!(e.tile_at(0, 1).unwrap().phase, AnimationPhase::Idle);
    assert_eq!(e.animations().len(), 0);
    // an id with no live tile reports false
    assert!(!e.clear_phase(id + 1000));
}

/// The absorbed tile of a merge stays visible at its target's cell for the
/// configured delay, then despawns when its countdown reaches zero.
#[test]
fn despawn_after_fixed_delay() {
    let mut e = Engine::new(4, 53);
    e.place(0, 0, 2).unwrap();
    e.place(1, 0, 2).unwrap();
    e.resolve(Direction::Left);
    assert_eq!(e.retiring_tiles().len(), 1);
    e.advance(DESPAWN_DELAY_MS - 1);
    let retiring = e.retiring_tiles();
    assert_eq!(retiring.len(), 1);
    assert_eq!(retiring[0].phase, AnimationPhase::PendingRemoval(1));
    e.advance(1);
    assert_eq!(e.retiring_tiles().len(), 0);
}

/// Reset destroys pending removals immediately: no stale id survives.
#[test]
fn reset_clears_pending_removals() {
    let mut e = Engine::new(4, 54);
    e.place(0, 0, 2).unwrap();
    e.place(1, 0, 2).unwrap();
    e.resolve(Direction::Left);
    assert_eq!(e.retiring_tiles().len(), 1);
    e.reset();
    assert_eq!(e.retiring_tiles().len(), 0);
    assert_eq!(e.tiles().len(), 2);
}

/// Determinism: two engines with the same seed, driven by the same command
/// sequence, end in the same state.
#[test]
fn identical_runs_from_identical_seeds() {
    let seed = 0x1234_5678_9abc_def0;
    let mut a = Engine::new(4, seed);
    let mut b = Engine::new(4, seed);
    let cmds = vec![
        Command::Reset,
        Command::Move(Direction::Left),
        Command::Move(Direction::Up),
        Command::Move(Direction::Left),
        Command::Move(Direction::Down),
        Command::Move(Direction::Right),
    ];
    for cmd in &cmds {
        match cmd {
            Command::Move(d) => {
                a.apply_move(*d);
                b.apply_move(*d);
            }
            Command::Reset => {
                a.reset();
                b.reset();
            }
        }
        a.advance(16);
        b.advance(16);
        assert_eq!(a.tiles(), b.tiles());
        assert_eq!(a.retiring_tiles(), b.retiring_tiles());
        assert_eq!(a.animations(), b.animations());
    }
}

/// A tick processes its queued moves in arrival order, exactly like issuing
/// them one by one, and then advances the despawn scheduler.
#[test]
fn tick_matches_sequential_commands() {
    let seed = 424242;
    let mut a = Engine::new(4, seed);
    a.reset();
    let mut b = Engine::new(4, seed);
    b.reset();

    let cmds = vec![Command::Move(Direction::Left), Command::Move(Direction::Up)];
    a.tick(&cmds, 100);

    b.apply_move(Direction::Left);
    b.apply_move(Direction::Up);
    b.advance(100);

    assert_eq!(a.tiles(), b.tiles());
    assert_eq!(a.retiring_tiles(), b.retiring_tiles());
}

/// Within one tick a reset supersedes every queued move.
#[test]
fn tick_reset_wins() {
    let seed = 31337;
    let mut a = Engine::new(4, seed);
    a.place(0, 0, 2).unwrap();
    let mut b = Engine::new(4, seed);
    b.place(0, 0, 2).unwrap();

    let cmds = vec![
        Command::Move(Direction::Left),
        Command::Reset,
        Command::Move(Direction::Up),
    ];
    a.tick(&cmds, 5);

    b.reset();
    b.advance(5);

    assert_eq!(a.tiles(), b.tiles());
    assert_eq!(a.retiring_tiles(), b.retiring_tiles());
}

/// Board setup refuses what the board cannot hold.
#[test]
fn place_rejections() {
    let mut e = Engine::new(4, 60);
    assert!(e.place(4, 0, 2).is_none());
    assert!(e.place(0, 4, 2).is_none());
    assert!(e.place(0, 0, 0).is_none());
    assert!(e.place(0, 0, 2).is_some());
    assert!(e.place(0, 0, 2).is_none());
    assert_eq!(e.tiles().len(), 1);
}
