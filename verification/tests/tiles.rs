use conveyor_chaos::block::{Block, BlockObject, BlockObjectMode};
use conveyor_chaos::flips::flip_alternating;
use conveyor_chaos::helpers::{BoardPos, Direction, SimulationError};
use conveyor_chaos::relevance::relevant_tiles_of;
use conveyor_chaos::tile::{Tile, TileType};

fn pos(x: i32, y: i32) -> BoardPos {
    BoardPos { x, y }
}

fn object(cells: &[(i32, i32)]) -> BlockObject {
    let mut blocks = Vec::new();
    for &(x, y) in cells {
        blocks.push(Block::new(pos(x, y)));
    }
    BlockObject::from_blocklist(blocks, BlockObjectMode::Processing)
}

#[test]
fn ranks_and_classes_of_the_kinds() {
    let kinds = [
        (TileType::Empty, 0, false, false, false),
        (TileType::PushTile, 3, true, true, false),
        (TileType::PrioTile, 4, true, true, false),
        (TileType::AltTile, 3, true, true, false),
        (TileType::RotTileCW, 1, false, false, true),
        (TileType::RotTileCCW, 1, false, false, true),
        (TileType::DelayTile, 2, true, true, false),
    ];
    for (kind, rank, rotatable, pushes, turns) in kinds {
        assert_eq!(kind.get_priority(), rank);
        assert_eq!(kind.rotatable(), rotatable);
        assert_eq!(kind.is_push_tile(), pushes);
        assert_eq!(kind.is_rot_tile(), turns);
    }
}

#[test]
fn a_new_tile_points_right() {
    let t = Tile::new(TileType::PushTile, pos(3, -4));
    assert_eq!(t.get_dir(), Direction::Right);
    assert_eq!(t.get_pos(), pos(3, -4));
    assert_eq!(t.get_x(), 3);
    assert_eq!(t.get_y(), -4);
    assert_eq!(t.get_type(), TileType::PushTile);
    let u = Tile::new_directional(TileType::AltTile, pos(3, -4), Direction::Up);
    assert_eq!(u.get_dir(), Direction::Up);
    assert_eq!(u.get_type(), TileType::AltTile);
    assert!(t.pos_eq(&u));
    assert!(!t.pos_eq(&Tile::new(TileType::PushTile, pos(3, 4))));
    assert!(!t.pos_eq(&Tile::new(TileType::PushTile, pos(-3, -4))));
}

#[test]
fn a_tile_turns_flips_and_remembers() {
    let mut t = Tile::new_directional(TileType::AltTile, pos(0, 0), Direction::Up);
    t.rotate_cw();
    assert_eq!(t.get_dir(), Direction::Right);
    t.rotate_ccw();
    t.rotate_ccw();
    assert_eq!(t.get_dir(), Direction::Left);
    t.save_dir();
    t.flip_dir();
    assert_eq!(t.get_dir(), Direction::Right);
    t.set_dir(Direction::Down);
    assert_eq!(t.get_dir(), Direction::Down);
    t.flip_dir();
    assert_eq!(t.get_dir(), Direction::Up);
    t.load_dir();
    assert_eq!(t.get_dir(), Direction::Left);
    let mut fresh = Tile::new_directional(TileType::PushTile, pos(0, 0), Direction::Down);
    fresh.set_dir(Direction::Up);
    fresh.load_dir();
    assert_eq!(fresh.get_dir(), Direction::Down);
}

#[test]
fn only_the_highest_rank_under_an_object_acts() {
    let tiles = vec![
        Tile::new(TileType::Empty, pos(0, 0)),
        Tile::new(TileType::RotTileCW, pos(1, 0)),
        Tile::new(TileType::PushTile, pos(2, 0)),
        Tile::new(TileType::PrioTile, pos(9, 9)),
        Tile::new(TileType::DelayTile, pos(3, 0)),
        Tile::new(TileType::AltTile, pos(4, 0)),
    ];
    let mut long = object(&[(0, 0), (1, 0), (2, 0), (3, 0), (4, 0)]);
    let rel = relevant_tiles_of(&tiles, &mut long);
    let places: Vec<(i32, i32)> = rel.iter().map(|t| (t.get_x(), t.get_y())).collect();
    assert_eq!(places, vec![(2, 0), (4, 0)]);
    let mut short = object(&[(0, 0), (1, 0)]);
    let rel = relevant_tiles_of(&tiles, &mut short);
    assert_eq!(rel.len(), 1);
    assert_eq!(rel[0].get_type(), TileType::RotTileCW);
    let mut lone = object(&[(0, 0)]);
    let rel = relevant_tiles_of(&tiles, &mut lone);
    assert_eq!(rel.len(), 1);
    assert_eq!(rel[0].get_type(), TileType::Empty);
    let mut away = object(&[(7, 7)]);
    assert_eq!(relevant_tiles_of(&tiles, &mut away).len(), 0);
}

#[test]
fn tiles_turn_round_where_an_alternating_tile_acted() {
    let mut tiles = vec![
        Tile::new_directional(TileType::AltTile, pos(0, 0), Direction::Up),
        Tile::new_directional(TileType::AltTile, pos(1, 0), Direction::Left),
        Tile::new_directional(TileType::PushTile, pos(2, 0), Direction::Left),
    ];
    let rel = vec![vec![], vec![tiles[2], tiles[0]]];
    flip_alternating(&mut tiles, &rel);
    assert_eq!(tiles[0].get_dir(), Direction::Down);
    assert_eq!(tiles[1].get_dir(), Direction::Left);
    assert_eq!(tiles[2].get_dir(), Direction::Left);
}

#[test]
fn an_error_from_a_message_names_no_cells() {
    let e = SimulationError::from_string("stuck".to_string());
    assert_eq!(e.message, "stuck");
    assert!(e.relevant_locations.is_empty());
}

#[test]
fn pictures_are_named_by_kind_and_direction() {
    let names = [
        (TileType::Empty, Direction::Up, "empty_tile"),
        (TileType::PushTile, Direction::Up, "push_tile_up"),
        (TileType::PrioTile, Direction::Left, "prio_tile_left"),
        (TileType::AltTile, Direction::Down, "alt_tile_down"),
        (TileType::DelayTile, Direction::Right, "delay_tile_right"),
        (TileType::RotTileCW, Direction::Left, "rot_tile_cw"),
        (TileType::RotTileCCW, Direction::Right, "rot_tile_ccw"),
    ];
    for (kind, dir, name) in names {
        assert_eq!(Tile::new_directional(kind, pos(0, 0), dir).image_name(), name);
    }
}
