use infinity_loop::game::{ClickEffect, GameState, ANIMATION_NANOS};
use infinity_loop::hex::HexPosition;
use infinity_loop::world::World;

const FAR: HexPosition = HexPosition(40, 40);

#[test]
fn frames_advance_the_animations() {
    let mut s: GameState<(i32, i32)> = GameState::Shuffeling;
    s.update(10, true);
    assert_eq!(s, GameState::Shuffeling);
    s.update(10, false);
    assert_eq!(s, GameState::InProgress);

    let mut s = GameState::WaitingForEnd((3, 4));
    s.update(5, true);
    assert_eq!(s, GameState::WaitingForEnd((3, 4)));
    s.update(5, false);
    assert_eq!(s, GameState::Ending((3, 4), 0));
    s.update(1_000_000_000, false);
    assert_eq!(s, GameState::Ending((3, 4), 1_000_000_000));
    s.update(500_000_000, true);
    assert_eq!(s, GameState::Ending((3, 4), ANIMATION_NANOS));
    s.update(1, true);
    assert_eq!(s, GameState::Ended);

    let mut s = GameState::Transition((0, 0), u64::MAX - 1);
    s.update(u64::MAX, false);
    assert_eq!(s, GameState::InProgress);

    let mut s: GameState<(i32, i32)> = GameState::Tutorial;
    s.update(u64::MAX, false);
    assert_eq!(s, GameState::Tutorial);
}

#[test]
fn state_flags() {
    let states: [GameState<u8>; 7] = [
        GameState::Tutorial,
        GameState::Shuffeling,
        GameState::InProgress,
        GameState::WaitingForEnd(1),
        GameState::Ending(1, 2),
        GameState::Ended,
        GameState::Transition(1, 2),
    ];
    let animated: Vec<bool> = states.iter().map(|s| s.is_animated()).collect();
    assert_eq!(animated, vec![false, true, false, true, true, false, true]);
    let interactive: Vec<bool> = states.iter().map(|s| s.is_interactive()).collect();
    assert_eq!(interactive, vec![false, false, true, true, true, true, true]);
    let speeds: Vec<u32> = states.iter().map(|s| s.update_speed()).collect();
    assert_eq!(speeds, vec![1, 5, 1, 1, 1, 1, 1]);
}

#[test]
fn clicks_lead_from_level_to_level() {
    let mut world = World::new(5);
    let mut s: GameState<(i32, i32)> = GameState::Tutorial;

    let has_tile = world.iter().iter().any(|(_, t)| !t.is_empty());
    assert!(matches!(s.click(&mut world, (0, 0), FAR), ClickEffect::Shuffled));
    assert_eq!(s, GameState::Shuffeling);
    assert_eq!(world.is_completed(), !has_tile);
    assert!(matches!(s.click(&mut world, (0, 0), FAR), ClickEffect::Unchanged));
    assert_eq!(s, GameState::Shuffeling);

    // A fresh, unshuffled level is solved: any click in play ends it.
    let mut world = World::new(5);
    let mut s = GameState::InProgress;
    assert!(matches!(s.click(&mut world, (7, 8), FAR), ClickEffect::Unchanged));
    assert_eq!(s, GameState::WaitingForEnd((7, 8)));
    assert!(matches!(s.click(&mut world, (0, 0), FAR), ClickEffect::Unchanged));
    assert_eq!(s, GameState::WaitingForEnd((7, 8)));

    let mut s = GameState::Ending((7, 8), 3);
    assert!(matches!(s.click(&mut world, (0, 0), FAR), ClickEffect::Unchanged));
    assert_eq!(s, GameState::Ended);

    match s.click(&mut world, (1, 2), FAR) {
        ClickEffect::NextLevel(next) => {
            assert_eq!(next.seed(), 6);
            let has_tile = next.iter().iter().any(|(_, t)| !t.is_empty());
            assert_eq!(next.is_completed(), !has_tile);
        }
        _ => panic!("the solved level leads to the next one"),
    }
    assert_eq!(s, GameState::Transition((1, 2), 0));
    assert_eq!(world.seed(), 5);
    assert!(matches!(s.click(&mut world, (0, 0), FAR), ClickEffect::Unchanged));
    assert_eq!(s, GameState::InProgress);
}

#[test]
fn clicks_in_play_turn_tiles() {
    let mut world = World::new(9);
    world.scramble(true);
    assert!(!world.is_completed());
    let cell = world
        .iter()
        .into_iter()
        .find(|(_, tile)| !tile.is_empty())
        .map(|(pos, _)| pos)
        .expect("a level has tiles");
    let before = world.tiles().get(cell).copied().unwrap();
    let mut s = GameState::InProgress;
    assert!(matches!(s.click(&mut world, (0, 0), cell), ClickEffect::Rotated));
    let after = world.tiles().get(cell).copied().unwrap();
    assert_eq!(after, before.rotate_by(1));
    let expected = if world.is_completed() { GameState::WaitingForEnd((0, 0)) } else { GameState::InProgress };
    assert_eq!(s, expected);
}

#[test]
fn clicks_far_off_the_board() {
    let mut world = World::new(3);
    let mut s = GameState::InProgress;
    assert!(matches!(s.click(&mut world, (0, 0), HexPosition(i32::MAX, 1)), ClickEffect::Unchanged));
    assert!(matches!(s.click(&mut world, (0, 0), HexPosition(i32::MIN, i32::MIN)), ClickEffect::Unchanged));
}
