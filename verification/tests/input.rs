use infinity_loop::touch::{InputState, TouchMap};

#[test]
fn touches_fill_two_slots() {
    let mut touches: TouchMap<(i32, i32)> = TouchMap::new();
    assert_eq!(touches.len(), 0);
    assert!(touches.insert(7, (1, 2)));
    assert!(touches.contains(7));
    assert!(!touches.contains(8));
    assert!(!touches.insert(7, (5, 5)));
    assert_eq!(touches.positions(), vec![(1, 2)]);
    assert!(touches.insert(9, (3, 4)));
    assert_eq!(touches.len(), 2);
    assert!(!touches.insert(11, (0, 0)));
    assert!(!touches.contains(11));
    assert_eq!(touches.positions(), vec![(1, 2), (3, 4)]);
}

#[test]
fn touches_remove_and_update() {
    let mut touches: TouchMap<(i32, i32)> = TouchMap::new();
    touches.insert(1, (0, 0));
    touches.insert(2, (10, 10));
    touches.update(2, (20, 30));
    assert_eq!(touches.positions(), vec![(0, 0), (20, 30)]);
    touches.update(5, (99, 99));
    assert_eq!(touches.positions(), vec![(0, 0), (20, 30)]);
    touches.remove(1);
    assert!(!touches.contains(1));
    assert_eq!(touches.len(), 1);
    assert_eq!(touches.positions(), vec![(20, 30)]);
    assert!(touches.insert(3, (4, 4)));
    assert_eq!(touches.positions(), vec![(4, 4), (20, 30)]);
    touches.remove(2);
    touches.remove(3);
    assert_eq!(touches.len(), 0);
    assert!(touches.positions().is_empty());
}

#[test]
fn presses_become_clicks_and_drags() {
    let s: InputState<(i32, i32)> = InputState::Up;
    assert_eq!(s.on_press(false, (1, 1)), InputState::Up);
    let s = s.on_press(true, (1, 1));
    assert_eq!(s, InputState::Click((1, 1)));
    assert_eq!(s.on_move((1, 2), false), (InputState::Click((1, 1)), None));
    assert_eq!(s.on_release(0, (0, 0)), (InputState::Up, Some((1, 1))));
    let d = s.on_move((5, 5), true);
    assert_eq!(d, (InputState::Drag((5, 5)), Some(((1, 1), (5, 5)))));
    let s = d.0.on_press(true, (6, 6));
    assert_eq!(s, InputState::Drag((6, 6)));
    assert_eq!(s.on_move((7, 7), false), (InputState::Drag((7, 7)), Some(((6, 6), (7, 7)))));
    assert_eq!(s.on_release(1, (8, 8)), (InputState::Drag((8, 8)), None));
    assert_eq!(s.on_release(0, (8, 8)), (InputState::Up, None));
    let up: InputState<(i32, i32)> = InputState::Up;
    assert_eq!(up.on_move((3, 3), true), (InputState::Up, None));
    let c = InputState::Click((2, 2));
    assert_eq!(c.on_press(true, (3, 3)), InputState::Drag((3, 3)));
}
