use infinity_loop::hex::HexPosition;
use infinity_loop::map::HexMap;
use infinity_loop::tiles::{TileConfig, TileType, ELEMENT_COUNT, EMPTY_INDEX};
use infinity_loop::util::{OptionExt, Update};

#[test]
fn hex_coordinates() {
    let p = HexPosition::new(2, -5);
    assert_eq!(p.q(), 2);
    assert_eq!(p.r(), -5);
    assert_eq!(p.s(), 3);
    assert_eq!(HexPosition::center(), HexPosition::new(0, 0));
    assert_eq!(p.add(HexPosition::new(1, 1)), HexPosition::new(3, -4));
    assert_eq!(p.sub(HexPosition::new(1, 1)), HexPosition::new(1, -6));
    assert_eq!(p.mul(3), HexPosition::new(6, -15));
}

#[test]
fn neighbors_point_back() {
    let p = HexPosition::new(4, -7);
    let n = p.neighbors();
    for d in 0..6 {
        assert_eq!(n[d], p.neighbor(d));
        assert_ne!(n[d], p);
        assert_eq!(n[d].neighbor((d + 3) % 6), p);
        for e in 0..6 {
            if e != d {
                assert_ne!(n[d], n[e]);
            }
        }
    }
    assert_eq!(n[0], HexPosition::new(5, -7));
    assert_eq!(n[5], HexPosition::new(4, -6));
}

#[test]
fn map_cell_counts() {
    for (radius, count) in [(0, 1), (1, 7), (2, 19), (3, 37), (10, 331)] {
        let map: HexMap<u8> = HexMap::new(radius);
        assert_eq!(map.len(), count);
        assert_eq!(map.keys().len(), count);
        assert_eq!(map.values().len(), count);
        assert_eq!(map.radius(), radius);
    }
}

#[test]
fn map_index_is_a_bijection() {
    let map: HexMap<u8> = HexMap::new(3);
    let keys = map.keys();
    for (i, k) in keys.iter().enumerate() {
        assert_eq!(map.index(*k), Some(i));
        assert!(map.contains(*k));
    }
    assert_eq!(keys[0], HexPosition::new(-3, 0));
    assert_eq!(map.index(HexPosition::new(0, 0)), Some(18));
    assert_eq!(map.index(HexPosition::new(3, 0)), Some(36));
    assert_eq!(map.index(HexPosition::new(2, 2)), None);
    assert_eq!(map.index(HexPosition::new(4, 0)), None);
}

#[test]
fn map_get_after_set() {
    let mut map: HexMap<u8> = HexMap::new(2);
    assert!(map.set(HexPosition::new(1, -2), 7));
    assert_eq!(map.get(HexPosition::new(1, -2)), Some(&7));
    assert_eq!(map.get(HexPosition::new(-1, 2)), Some(&0));
    assert!(!map.set(HexPosition::new(3, 0), 9));
    assert_eq!(map.get(HexPosition::new(3, 0)), None);
    assert_eq!(map.values().iter().filter(|v| **v == 7).count(), 1);
}

#[test]
fn tile_endings_rotate() {
    assert_eq!(TileType::Tile0.endings(), [false, false, false, false, false, true]);
    let t = TileConfig::Tile(TileType::Tile01, 0);
    assert_eq!(t.endings(), [true, false, false, false, false, true]);
    assert_eq!(t.rotate_by(1).endings(), [true, true, false, false, false, false]);
    assert_eq!(TileConfig::Tile(TileType::Tile0, 6).endings(), TileConfig::Tile(TileType::Tile0, 0).endings());
    assert_eq!(TileConfig::Empty.endings(), [false; 6]);
}

#[test]
fn tile_rotations() {
    let t = TileConfig::Tile(TileType::Tile024, 4);
    assert_eq!(t.rotate_by(3), TileConfig::Tile(TileType::Tile024, 1));
    assert_eq!(t.with_rotation(2), TileConfig::Tile(TileType::Tile024, 2));
    assert_eq!(TileConfig::Empty.rotate_by(3), TileConfig::Empty);
    assert_eq!(TileConfig::Tile(TileType::Tile03, 13).normalized(), TileConfig::Tile(TileType::Tile03, 1));
    assert_eq!(t.rotation(), 4);
    assert_eq!(TileConfig::Empty.rotation(), 0);
    assert!(TileConfig::Empty.is_empty());
    assert!(!t.is_empty());
    let mut c = t;
    for _ in 0..6 {
        c = c.rotate_by(1);
    }
    assert_eq!(c, t);
}

#[test]
fn element_table_roundtrip() {
    for i in 0..ELEMENT_COUNT {
        assert_eq!(TileConfig::from(i).index(), i);
    }
    assert_eq!(TileConfig::from(EMPTY_INDEX), TileConfig::Empty);
    assert_eq!(TileConfig::from(0), TileConfig::Tile(TileType::Tile0, 0));
    assert_eq!(TileConfig::from(41), TileConfig::Tile(TileType::Tile0134, 5));
    assert_eq!(TileConfig::Tile(TileType::Tile02, 9).index(), 15);
    assert_eq!(TileConfig::from(TileConfig::Tile(TileType::Tile012, 8).index()), TileConfig::Tile(TileType::Tile012, 2));
}

#[test]
fn tile_models() {
    assert_eq!(TileType::Tile0.model(), 1);
    assert_eq!(TileType::Tile0134.model(), 7);
    assert_eq!(TileConfig::Tile(TileType::Tile03, 2).model(), 4);
    assert_eq!(TileConfig::default(), TileConfig::Empty);
}

#[test]
fn update_reports_change() {
    let mut t = TileConfig::Tile(TileType::Tile0, 1);
    assert!(!t.update(TileConfig::Tile(TileType::Tile0, 1)));
    assert!(t.update(TileConfig::Tile(TileType::Tile0, 2)));
    assert_eq!(t, TileConfig::Tile(TileType::Tile0, 2));
    let mut x: u8 = 3;
    assert!(x.update(4));
    assert_eq!(x, 4);
}

#[test]
fn option_contains() {
    assert!(Some(3u8).contains_e(&3u8));
    assert!(!Some(3u8).contains_e(&4u8));
    assert!(!None::<u8>.contains_e(&3u8));
}

#[test]
fn positions_far_off_the_board() {
    let mut map: HexMap<u8> = HexMap::new(2);
    for pos in [
        HexPosition::new(i32::MAX, 1),
        HexPosition::new(-(1 << 30), -(1 << 30)),
        HexPosition::new(i32::MIN, 0),
        HexPosition::new(0, i32::MIN),
        HexPosition::new(i32::MIN, i32::MIN),
        HexPosition::new(i32::MAX, i32::MAX),
    ] {
        assert!(!map.contains(pos));
        assert_eq!(map.index(pos), None);
        assert_eq!(map.get(pos), None);
        assert!(map.get_mut(pos).is_none());
        assert!(!map.set(pos, 5));
    }
    assert!(map.values().iter().all(|v| *v == 0));
    assert_eq!(map.radius(), 2);
}

#[test]
fn new_maps_hold_the_default() {
    let map: HexMap<TileConfig> = HexMap::new(1);
    assert!(map.values().iter().all(|t| *t == TileConfig::Empty));
    let map: HexMap<u32> = HexMap::new(3);
    assert!(map.values().iter().all(|v| *v == 0));
}
