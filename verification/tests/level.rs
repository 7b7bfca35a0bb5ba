use infinity_loop::generator::PossibilityMap;
use infinity_loop::hex::HexPosition;
use infinity_loop::tiles::TileConfig;
use infinity_loop::world::{World, WorldSave, WORLD_RADIUS};
use fastrand::Rng;

fn endings_match(world: &World) -> bool {
    let tiles = world.tiles();
    for p in tiles.keys() {
        let e = tiles.get(p).unwrap().endings();
        for d in 0..6 {
            let n = tiles.get(p.neighbor(d)).copied().unwrap_or(TileConfig::Empty);
            if e[d] != n.endings()[(d + 3) % 6] {
                return false;
            }
        }
    }
    true
}

#[test]
fn generated_levels_are_solved() {
    for seed in 0..40u64 {
        let world = World::new(seed);
        assert_eq!(world.seed(), seed);
        assert!(world.is_completed());
        assert!(endings_match(&world));
        assert_eq!(world.tiles().radius(), WORLD_RADIUS);
        assert_eq!(world.iter().len(), 19);
    }
}

#[test]
fn generation_depends_on_the_seed_only() {
    let a = World::new(7);
    let b = World::new(7);
    assert_eq!(a.tiles().values(), b.tiles().values());
}

#[test]
fn scramble_keeps_shapes() {
    for seed in 1..20u64 {
        let solved = World::new(seed);
        let mut world = World::new(seed);
        world.scramble(false);
        for (p, t) in world.iter() {
            let before = *solved.tiles().get(p).unwrap();
            assert_eq!(t.is_empty(), before.is_empty());
            assert!(t.rotation() < 6);
            if let (TileConfig::Tile(a, _), TileConfig::Tile(b, _)) = (t, before) {
                assert_eq!(a, b);
            }
        }
        assert_eq!(world.is_completed(), endings_match(&world));
    }
}

#[test]
fn scramble_with_forced_rotation_unsolves() {
    let mut world = World::new(3);
    world.scramble(true);
    assert_eq!(world.is_completed(), endings_match(&world));
    let has_tile = world.iter().iter().any(|(_, t)| !t.is_empty());
    if has_tile {
        assert!(!world.is_completed());
    }
}

#[test]
fn rotating_six_times_restores_the_level() {
    let mut world = World::new(11);
    let start = world.tiles().values().to_vec();
    for (p, t) in world.iter() {
        for _ in 0..6 {
            assert_eq!(world.try_rotate(p), !t.is_empty());
        }
    }
    assert_eq!(world.tiles().values(), start.as_slice());
    assert!(world.is_completed());
}

#[test]
fn rotation_tracks_completion() {
    let mut world = World::new(5);
    let tile = world.iter().into_iter().find(|(_, t)| !t.is_empty());
    if let Some((p, t)) = tile {
        assert!(world.try_rotate(p));
        assert_eq!(*world.tiles().get(p).unwrap(), t.rotate_by(1));
        assert_eq!(world.is_completed(), endings_match(&world));
    }
    assert!(!world.try_rotate(HexPosition::new(10, 10)));
}

#[test]
fn save_restores_rotations() {
    let mut world = World::new(9);
    world.scramble(false);
    let save = WorldSave::from_world(&world);
    assert_eq!(save.seed, 9);
    assert_eq!(save.rotations.len(), 19);
    let loaded = World::from_save(save);
    assert_eq!(loaded.tiles().values(), world.tiles().values());
    assert_eq!(loaded.is_completed(), world.is_completed());
}

#[test]
fn save_with_wrong_length_gives_fresh_level() {
    let loaded = World::from_save(WorldSave { seed: 4, rotations: vec![1, 2, 3] });
    assert!(loaded.is_completed());
    assert_eq!(loaded.tiles().values(), World::new(4).tiles().values());
}

#[test]
fn propagation_narrows_border_cells() {
    let mut map = PossibilityMap::new(2);
    map.clear();
    assert!(map.valid());
    let rng = Rng::with_seed(1);
    let mut steps = 0;
    while let Some(p) = map.lowest_entropy(&rng) {
        map.collapse(p, &rng);
        steps += 1;
        if !map.valid() {
            break;
        }
    }
    assert!(steps > 0);
    if map.valid() {
        let tiles = map.into_tiles();
        assert_eq!(tiles.len(), 19);
    }
}

#[test]
fn shuffled_levels_end_unsolved() {
    for seed in 0..30u64 {
        for force in [false, true] {
            let mut world = World::new(seed);
            let has_tile = world.iter().iter().any(|(_, t)| !t.is_empty());
            world.scramble(force);
            assert_eq!(world.is_completed(), !has_tile);
            assert_eq!(world.is_completed(), endings_match(&world));
        }
    }
}

#[test]
fn rotating_far_off_the_board_does_nothing() {
    let mut world = World::new(2);
    let start = world.tiles().values().to_vec();
    assert!(!world.try_rotate(HexPosition::new(i32::MAX, 1)));
    assert!(!world.try_rotate(HexPosition::new(i32::MIN, i32::MIN)));
    assert_eq!(world.tiles().values(), start.as_slice());
}

#[test]
fn saves_with_large_rotations_load() {
    let level = World::new(12);
    let rotations: Vec<u8> = level.iter().iter().map(|(_, t)| if t.is_empty() { 250 } else { 13 }).collect();
    let loaded = World::from_save(WorldSave { seed: 12, rotations });
    for (p, t) in loaded.iter() {
        let generated = *level.tiles().get(p).unwrap();
        if generated.is_empty() {
            assert_eq!(t, TileConfig::Empty);
        } else {
            assert_eq!(t, generated.with_rotation(1));
        }
    }
    assert_eq!(loaded.is_completed(), endings_match(&loaded));
}
