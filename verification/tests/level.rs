use conveyor_chaos::block::{Block, BlockObject, BlockObjectMode};
use conveyor_chaos::helpers::{BoardPos, Direction, SerializedBlockObject};
use conveyor_chaos::level::{Holding, LevelKey, LevelMode, LevelState};
use conveyor_chaos::tile::{Tile, TileType};

fn pos(x: i32, y: i32) -> BoardPos {
    BoardPos { x, y }
}

fn record(input: bool, cells: &[(i32, i32)], counter: i32) -> SerializedBlockObject {
    SerializedBlockObject {
        input,
        blocks: cells.iter().map(|&(x, y)| pos(x, y)).collect(),
        counter,
    }
}

fn cells_of(bo: &BlockObject) -> Vec<(i32, i32)> {
    bo.block_locations().iter().map(|p| (p.x, p.y)).collect()
}

fn held_cells(level: &LevelState) -> Vec<(i32, i32)> {
    match level.held() {
        Holding::BlockObject { blockobject } => cells_of(blockobject),
        _ => panic!("the hand should hold an object"),
    }
}

fn one_step_level() -> LevelState {
    let objects = LevelState::load_level(&vec![
        record(true, &[(0, 0)], 1),
        record(false, &[(0, 0)], 1),
    ]);
    let mut level = LevelState::new(objects.len());
    level.hold(Holding::BlockObject { blockobject: objects[0].clone() });
    assert!(level.mouse_click_event(pos(0, 0), false).is_ok());
    level.hold(Holding::BlockObject { blockobject: objects[1].clone() });
    assert!(level.mouse_click_event(pos(1, 0), false).is_ok());
    level.hold(Holding::Tile {
        tile: Tile::new_directional(TileType::PushTile, pos(0, 0), Direction::Right),
    });
    assert!(level.mouse_click_event(pos(0, 0), false).is_ok());
    level
}

#[test]
fn records_become_objects_numbered_from_one() {
    let objects = LevelState::load_level(&vec![
        record(true, &[(0, 0), (1, 0)], 3),
        record(false, &[(4, 4)], 2),
        record(true, &[], -1),
    ]);
    assert_eq!(objects.len(), 3);
    assert!(objects[0].mode == BlockObjectMode::Input);
    assert_eq!(objects[0].id, 1);
    assert_eq!(objects[0].start_counter, 3);
    assert_eq!(objects[0].counter, 0);
    assert_eq!(cells_of(&objects[0]), vec![(0, 0), (1, 0)]);
    assert!(objects[1].mode == BlockObjectMode::Output);
    assert_eq!(objects[1].id, 2);
    assert_eq!(objects[1].start_counter, 2);
    assert_eq!(objects[2].id, 3);
    assert_eq!(objects[2].start_counter, -1);
    assert_eq!(objects[2].blocks.len(), 0);
    assert_eq!(LevelState::load_level(&Vec::new()).len(), 0);
}

#[test]
fn a_run_begins_only_when_everything_is_placed() {
    let mut level = LevelState::new(2);
    assert!(level.mode() == LevelMode::Building);
    assert!(level.key_down_event(LevelKey::Toggle, pos(0, 0)));
    assert!(level.mode() == LevelMode::Building);
    let mut level = one_step_level();
    assert_eq!(level.board().num_blockobjects(), 2);
    level.hold(Holding::Tile { tile: Tile::new(TileType::PushTile, pos(0, 0)) });
    assert!(!level.key_down_event(LevelKey::Toggle, pos(0, 0)));
    assert!(level.mode() == LevelMode::Running);
    assert!(matches!(level.held(), Holding::Nothing));
    assert_eq!(level.board().blockobjects()[0].counter, 1);
    assert!(!level.key_down_event(LevelKey::Toggle, pos(0, 0)));
    assert!(level.mode() == LevelMode::Building);
}

#[test]
fn a_won_run_returns_to_building() {
    let mut level = one_step_level();
    assert!(!level.key_down_event(LevelKey::Toggle, pos(5, 5)));
    assert!(matches!(level.update(0), Ok(false)));
    assert_eq!(level.board().activeblockobjects().len(), 1);
    assert!(matches!(level.update(400_000_000), Ok(false)));
    assert!(level.mode() == LevelMode::Running);
    assert!(matches!(level.update(400_000_000), Ok(true)));
    assert!(level.mode() == LevelMode::Building);
    assert_eq!(level.board().activeblockobjects().len(), 0);
    assert!(matches!(level.update(4_000_000_000), Ok(false)));
    assert_eq!(level.board().game_ticks(), 2);
}

#[test]
fn a_failed_run_returns_to_building_and_clears_the_board() {
    let objects = LevelState::load_level(&vec![
        record(true, &[(0, 0)], 1),
        record(true, &[(0, 0)], 1),
        record(false, &[(0, 0)], 1),
    ]);
    let mut level = LevelState::new(3);
    let places = [pos(0, 0), pos(2, 0), pos(7, 7)];
    for i in 0..3 {
        level.hold(Holding::BlockObject { blockobject: objects[i].clone() });
        assert!(level.mouse_click_event(places[i], false).is_ok());
    }
    level.hold(Holding::Tile {
        tile: Tile::new_directional(TileType::AltTile, pos(0, 0), Direction::Right),
    });
    assert!(level.mouse_click_event(pos(0, 0), true).is_ok());
    assert!(matches!(level.held(), Holding::Tile { .. }));
    level.hold(Holding::Tile {
        tile: Tile::new_directional(TileType::PushTile, pos(0, 0), Direction::Left),
    });
    assert!(level.mouse_click_event(pos(2, 0), false).is_ok());
    assert!(matches!(level.held(), Holding::Nothing));
    assert!(!level.key_down_event(LevelKey::Toggle, pos(0, 0)));
    match level.update(0) {
        Err(e) => {
            assert_eq!(e.message, "Collision occured");
            assert_eq!(e.relevant_locations, vec![pos(1, 0)]);
        }
        Ok(_) => panic!("the two objects should collide"),
    }
    assert!(level.mode() == LevelMode::Building);
    assert_eq!(level.board().activeblockobjects().len(), 0);
    assert_eq!(level.board().tiles()[0].get_dir(), Direction::Right);
}

#[test]
fn keys_turn_what_is_held_and_the_tile_under_the_cursor() {
    let mut level = LevelState::new(0);
    level.hold(Holding::Tile {
        tile: Tile::new_directional(TileType::PushTile, pos(0, 0), Direction::Up),
    });
    assert!(level.mouse_click_event(pos(3, 3), true).is_ok());
    assert!(!level.key_down_event(LevelKey::Rotate { reverse: false }, pos(3, 3)));
    match level.held() {
        Holding::Tile { tile } => assert_eq!(tile.get_dir(), Direction::Right),
        _ => panic!("the hand should hold a tile"),
    }
    assert_eq!(level.board().tiles()[0].get_dir(), Direction::Right);
    assert!(!level.key_down_event(LevelKey::Rotate { reverse: true }, pos(0, 0)));
    assert!(!level.key_down_event(LevelKey::Rotate { reverse: true }, pos(0, 0)));
    match level.held() {
        Holding::Tile { tile } => assert_eq!(tile.get_dir(), Direction::Left),
        _ => panic!("the hand should hold a tile"),
    }
    assert_eq!(level.board().tiles()[0].get_dir(), Direction::Right);
    assert!(!level.key_down_event(LevelKey::Other, pos(3, 3)));
    assert_eq!(level.board().tiles().len(), 1);
    assert!(!level.key_down_event(LevelKey::Remove, pos(3, 3)));
    assert_eq!(level.board().tiles().len(), 0);
}

#[test]
fn a_held_object_turns_about_the_origin() {
    let mut level = LevelState::new(0);
    let blocks = vec![Block::new(pos(1, 0)), Block::new(pos(2, 0))];
    level.hold(Holding::BlockObject {
        blockobject: BlockObject::from_blocklist(blocks, BlockObjectMode::Input),
    });
    assert!(!level.key_down_event(LevelKey::Rotate { reverse: false }, pos(0, 0)));
    assert_eq!(held_cells(&level), vec![(0, 1), (0, 2)]);
    assert!(!level.key_down_event(LevelKey::Rotate { reverse: true }, pos(0, 0)));
    assert!(!level.key_down_event(LevelKey::Rotate { reverse: true }, pos(0, 0)));
    assert_eq!(held_cells(&level), vec![(0, -1), (0, -2)]);
    let edge = vec![Block::new(pos(0, i32::MIN))];
    level.hold(Holding::BlockObject {
        blockobject: BlockObject::from_blocklist(edge, BlockObjectMode::Input),
    });
    assert!(!level.key_down_event(LevelKey::Rotate { reverse: false }, pos(0, 0)));
    assert_eq!(held_cells(&level), vec![(0, i32::MIN)]);
}

#[test]
fn clicks_do_nothing_during_a_run_or_off_the_grid() {
    let mut level = LevelState::new(0);
    let far = vec![Block::new(pos(0, 0)), Block::new(pos(i32::MAX, 0))];
    level.hold(Holding::BlockObject {
        blockobject: BlockObject::from_blocklist(far, BlockObjectMode::Input),
    });
    assert!(level.mouse_click_event(pos(1, 0), false).is_ok());
    assert_eq!(level.board().num_blockobjects(), 0);
    assert!(matches!(level.held(), Holding::BlockObject { .. }));
    level.hold(Holding::BlockObject { blockobject: BlockObject::new() });
    assert!(level.mouse_click_event(pos(1, 0), false).is_err());
    assert!(matches!(level.held(), Holding::BlockObject { .. }));
    level.hold(Holding::Nothing);
    assert!(level.mouse_click_event(pos(1, 0), false).is_ok());
    assert!(!level.key_down_event(LevelKey::Toggle, pos(0, 0)));
    assert!(level.mode() == LevelMode::Running);
    level.hold(Holding::Tile { tile: Tile::new(TileType::PushTile, pos(0, 0)) });
    assert!(level.mouse_click_event(pos(1, 0), false).is_ok());
    assert_eq!(level.board().tiles().len(), 0);
    assert!(matches!(level.held(), Holding::Tile { .. }));
    assert!(!level.key_down_event(LevelKey::Remove, pos(1, 0)));
}
