use conveyor_chaos::block::{Block, BlockObject, BlockObjectAnimation, BlockObjectMode};
use conveyor_chaos::board::Board;
use conveyor_chaos::helpers::{BoardPos, Direction, MovementType, SimulationError};
use conveyor_chaos::level::{Holding, LevelKey, LevelMode};
use conveyor_chaos::resolve::{resolve, Resolution};
use conveyor_chaos::tile::{Tile, TileType};

fn pos(x: i32, y: i32) -> BoardPos {
    BoardPos { x, y }
}

fn object(cells: &[(i32, i32)], mode: BlockObjectMode, id: i32, count: i32) -> BlockObject {
    let mut blocks = Vec::new();
    for &(x, y) in cells {
        blocks.push(Block::new(pos(x, y)));
    }
    let mut bo = BlockObject::from_blocklist(blocks, mode);
    bo.id = id;
    bo.start_counter = count;
    bo
}

fn place(board: &mut Board, cells: &[(i32, i32)], mode: BlockObjectMode, id: i32, count: i32) {
    let mut bo = object(cells, mode, id, count);
    let at = bo.get_top_left().unwrap();
    assert!(board.place_blockobject(bo, at).is_ok());
}

fn cells_of(bo: &BlockObject) -> Vec<(i32, i32)> {
    bo.block_locations().iter().map(|p| (p.x, p.y)).collect()
}

fn failure(r: Result<bool, SimulationError>) -> (String, Vec<(i32, i32)>) {
    match r {
        Err(e) => (e.message, e.relevant_locations.iter().map(|p| (p.x, p.y)).collect()),
        Ok(_) => panic!("the tick should have failed"),
    }
}

fn carried_on(r: Result<bool, SimulationError>) -> bool {
    matches!(r, Ok(false))
}

#[test]
fn one_input_one_output_is_won_after_two_ticks() {
    let mut board = Board::new();
    place(&mut board, &[(0, 0)], BlockObjectMode::Input, 1, 1);
    place(&mut board, &[(1, 0)], BlockObjectMode::Output, 2, 1);
    board.place_tile(TileType::PushTile, pos(0, 0), Direction::Right);
    assert!(board.process_start().is_ok());
    assert!(board.check_limits());

    assert!(carried_on(board.process_step()));
    let flying = board.activeblockobjects();
    assert_eq!(flying.len(), 1);
    assert_eq!(cells_of(&flying[0]), vec![(1, 0)]);
    assert!(flying[0].just_moved);
    assert_eq!(flying[0].anim, BlockObjectAnimation::Translation { x: 1, y: 0 });
    assert_eq!(board.blockobjects()[0].counter, 0);
    assert_eq!(board.blockobjects()[1].counter, 1);

    assert!(carried_on(board.process_step()));
    assert_eq!(board.activeblockobjects().len(), 0);
    assert_eq!(board.blockobjects()[1].counter, 0);
    assert_eq!(board.blockobjects()[1].anim, BlockObjectAnimation::Output);
    assert_eq!(board.game_ticks(), 2);

    assert!(matches!(board.process_step(), Ok(true)));
    assert_eq!(board.game_ticks(), 2);
}

#[test]
fn tiles_pointing_up_and_down_under_one_cell_cannot_be_resolved() {
    let rel = vec![
        Tile::new_directional(TileType::PushTile, pos(0, 0), Direction::Up),
        Tile::new_directional(TileType::PushTile, pos(0, 0), Direction::Down),
    ];
    let single = object(&[(0, 0)], BlockObjectMode::Processing, -1, 0);
    assert_eq!(resolve(&rel, &single), Resolution::DirectionConflict);
}

#[test]
fn pushes_up_and_left_fail_the_tick() {
    let mut board = Board::new();
    place(&mut board, &[(0, 0), (1, 0)], BlockObjectMode::Input, 1, 1);
    place(&mut board, &[(5, 5)], BlockObjectMode::Output, 2, 1);
    board.place_tile(TileType::PushTile, pos(0, 0), Direction::Up);
    board.place_tile(TileType::PushTile, pos(1, 0), Direction::Left);
    assert!(board.process_start().is_ok());
    let (message, places) = failure(board.process_step());
    assert_eq!(message, "Attempted to move block in multiple directions");
    assert_eq!(places, vec![(0, 0), (1, 0)]);
}

#[test]
fn two_objects_moving_into_one_cell_collide() {
    let mut board = Board::new();
    place(&mut board, &[(0, 0)], BlockObjectMode::Input, 1, 1);
    place(&mut board, &[(2, 0)], BlockObjectMode::Input, 2, 1);
    place(&mut board, &[(5, 5)], BlockObjectMode::Output, 3, 1);
    board.place_tile(TileType::PushTile, pos(0, 0), Direction::Right);
    board.place_tile(TileType::PushTile, pos(2, 0), Direction::Left);
    assert!(board.process_start().is_ok());
    let (message, places) = failure(board.process_step());
    assert_eq!(message, "Collision occured");
    assert_eq!(places, vec![(1, 0)]);
}

#[test]
fn objects_pushed_against_each_other_merge() {
    let mut board = Board::new();
    place(&mut board, &[(0, 0)], BlockObjectMode::Input, 1, 1);
    place(&mut board, &[(0, 3)], BlockObjectMode::Input, 2, 1);
    place(&mut board, &[(5, 5)], BlockObjectMode::Output, 3, 1);
    board.place_tile(TileType::PushTile, pos(0, 0), Direction::Down);
    board.place_tile(TileType::PushTile, pos(0, 1), Direction::Down);
    board.place_tile(TileType::PushTile, pos(0, 2), Direction::Up);
    board.place_tile(TileType::PushTile, pos(0, 3), Direction::Up);
    assert!(board.process_start().is_ok());

    assert!(carried_on(board.process_step()));
    let flying = board.activeblockobjects();
    assert_eq!(flying.len(), 2);
    assert_eq!(cells_of(&flying[0]), vec![(0, 1)]);
    assert_eq!(cells_of(&flying[1]), vec![(0, 2)]);

    assert!(carried_on(board.process_step()));
    let flying = board.activeblockobjects();
    assert_eq!(flying.len(), 1);
    assert_eq!(cells_of(&flying[0]), vec![(0, 1), (0, 2)]);
    assert_eq!(flying[0].id, 2);
    assert!(flying[0].mode == BlockObjectMode::Processing);
    assert!(flying[0].just_moved);
    assert_eq!(flying[0].anim, BlockObjectAnimation::Translation { x: 0, y: 0 });
}

#[test]
fn three_objects_meeting_at_one_seam_become_one() {
    let mut board = Board::new();
    place(&mut board, &[(0, 0), (1, 0)], BlockObjectMode::Input, 1, 1);
    place(&mut board, &[(0, 1)], BlockObjectMode::Input, 2, 1);
    place(&mut board, &[(1, 1)], BlockObjectMode::Input, 3, 1);
    place(&mut board, &[(5, 5)], BlockObjectMode::Output, 4, 1);
    board.place_tile(TileType::PushTile, pos(0, 0), Direction::Down);
    board.place_tile(TileType::PushTile, pos(1, 0), Direction::Down);
    board.place_tile(TileType::PushTile, pos(0, 1), Direction::Up);
    board.place_tile(TileType::PushTile, pos(1, 1), Direction::Up);
    assert!(board.process_start().is_ok());
    assert!(carried_on(board.process_step()));
    let flying = board.activeblockobjects();
    assert_eq!(flying.len(), 1);
    assert_eq!(cells_of(&flying[0]), vec![(0, 0), (1, 0), (0, 1), (1, 1)]);
}

#[test]
fn a_pair_that_bridges_two_groups_joins_them() {
    let mut board = Board::new();
    place(&mut board, &[(0, 1)], BlockObjectMode::Input, 1, 1);
    place(&mut board, &[(3, 0)], BlockObjectMode::Input, 2, 1);
    place(&mut board, &[(2, 1), (3, 1)], BlockObjectMode::Input, 3, 1);
    place(&mut board, &[(0, 0), (1, 0), (2, 0)], BlockObjectMode::Input, 4, 1);
    place(&mut board, &[(9, 9)], BlockObjectMode::Output, 5, 1);
    for x in 0..4 {
        board.place_tile(TileType::PushTile, pos(x, 0), Direction::Down);
    }
    board.place_tile(TileType::PushTile, pos(0, 1), Direction::Up);
    board.place_tile(TileType::PushTile, pos(2, 1), Direction::Up);
    board.place_tile(TileType::PushTile, pos(3, 1), Direction::Up);
    assert!(board.process_start().is_ok());
    assert!(carried_on(board.process_step()));
    let flying = board.activeblockobjects();
    assert_eq!(flying.len(), 1);
    assert_eq!(
        cells_of(&flying[0]),
        vec![(0, 1), (3, 0), (2, 1), (3, 1), (0, 0), (1, 0), (2, 0)]
    );
}

#[test]
fn placing_over_a_placed_object_displaces_it() {
    let mut board = Board::new();
    place(&mut board, &[(0, 0), (1, 0)], BlockObjectMode::Input, 1, 1);
    assert_eq!(board.num_blockobjects(), 1);
    let newcomer = object(&[(7, 7)], BlockObjectMode::Output, 2, 1);
    assert!(board.place_blockobject(newcomer, pos(1, 0)).is_ok());
    assert_eq!(board.num_blockobjects(), 1);
    let placed = board.blockobjects();
    assert_eq!(placed[0].id, 2);
    assert_eq!(cells_of(&placed[0]), vec![(1, 0)]);
}

#[test]
fn placing_an_object_again_moves_it() {
    let mut board = Board::new();
    place(&mut board, &[(0, 0)], BlockObjectMode::Input, 1, 1);
    place(&mut board, &[(4, 4)], BlockObjectMode::Output, 2, 1);
    let again = object(&[(0, 0)], BlockObjectMode::Input, 1, 1);
    assert!(board.place_blockobject(again, pos(8, 8)).is_ok());
    assert_eq!(board.num_blockobjects(), 2);
    let placed = board.blockobjects();
    assert_eq!(placed[0].id, 2);
    assert_eq!(placed[1].id, 1);
    assert_eq!(cells_of(&placed[1]), vec![(8, 8)]);
}

#[test]
fn objects_without_identity_displace_by_overlap_only() {
    let mut board = Board::new();
    place(&mut board, &[(0, 0)], BlockObjectMode::Input, -1, 1);
    place(&mut board, &[(2, 0)], BlockObjectMode::Input, -1, 1);
    assert_eq!(board.num_blockobjects(), 2);
    place(&mut board, &[(2, 0), (3, 0)], BlockObjectMode::Input, -1, 1);
    assert_eq!(board.num_blockobjects(), 2);
}

#[test]
fn an_object_without_blocks_cannot_be_placed() {
    let mut board = Board::new();
    let nothing = BlockObject::new();
    assert!(board.place_blockobject(nothing, pos(0, 0)).is_err());
    assert_eq!(board.num_blockobjects(), 0);
}

#[test]
fn two_rotating_tiles_under_one_object_fail_the_tick() {
    let mut board = Board::new();
    place(&mut board, &[(0, 0), (1, 0)], BlockObjectMode::Input, 1, 1);
    place(&mut board, &[(5, 5)], BlockObjectMode::Output, 2, 1);
    board.place_tile(TileType::RotTileCW, pos(0, 0), Direction::Right);
    board.place_tile(TileType::RotTileCCW, pos(1, 0), Direction::Right);
    assert!(board.process_start().is_ok());
    let (message, places) = failure(board.process_step());
    assert_eq!(message, "Attempted to rotate block from multiple pivots");
    assert_eq!(places, vec![(0, 0), (1, 0)]);
}

#[test]
fn a_rotating_tile_turns_the_object_about_itself() {
    let mut board = Board::new();
    place(&mut board, &[(0, 0), (1, 0)], BlockObjectMode::Input, 1, 1);
    place(&mut board, &[(5, 5)], BlockObjectMode::Output, 2, 1);
    board.place_tile(TileType::RotTileCW, pos(0, 0), Direction::Right);
    assert!(board.process_start().is_ok());
    assert!(carried_on(board.process_step()));
    let flying = board.activeblockobjects();
    assert_eq!(cells_of(&flying[0]), vec![(0, 0), (0, 1)]);
    assert_eq!(
        flying[0].anim,
        BlockObjectAnimation::Rotation { quarter_turns: -1, around: pos(0, 0) }
    );
    assert!(!flying[0].just_moved);
}

#[test]
fn a_higher_rank_overrides_lower_tiles() {
    let mut board = Board::new();
    place(&mut board, &[(0, 0), (1, 0)], BlockObjectMode::Input, 1, 1);
    place(&mut board, &[(5, 5)], BlockObjectMode::Output, 2, 1);
    board.place_tile(TileType::PushTile, pos(0, 0), Direction::Up);
    board.place_tile(TileType::PrioTile, pos(1, 0), Direction::Down);
    assert!(board.process_start().is_ok());
    assert!(carried_on(board.process_step()));
    assert_eq!(cells_of(&board.activeblockobjects()[0]), vec![(0, 1), (1, 1)]);
}

#[test]
fn an_output_that_expects_no_more_overflows() {
    let mut board = Board::new();
    place(&mut board, &[(0, 0)], BlockObjectMode::Input, 1, 1);
    place(&mut board, &[(1, 0)], BlockObjectMode::Output, 2, 0);
    place(&mut board, &[(5, 5)], BlockObjectMode::Output, 3, 1);
    board.place_tile(TileType::PushTile, pos(0, 0), Direction::Right);
    assert!(board.process_start().is_ok());
    assert!(carried_on(board.process_step()));
    let (message, places) = failure(board.process_step());
    assert_eq!(message, "Too many objects in one output (expected 0)");
    assert_eq!(places, vec![(1, 0)]);
    assert_eq!(board.activeblockobjects().len(), 1);
    assert_eq!(board.blockobjects()[1].counter, 0);
}

#[test]
fn the_overflow_message_names_the_expected_count() {
    let mut board = Board::new();
    place(&mut board, &[(0, 0)], BlockObjectMode::Input, 1, 1);
    place(&mut board, &[(1, 0)], BlockObjectMode::Output, 2, -120);
    board.place_tile(TileType::PushTile, pos(0, 0), Direction::Right);
    assert!(board.process_start().is_ok());
    assert!(carried_on(board.process_step()));
    let (message, _) = failure(board.process_step());
    assert_eq!(message, "Too many objects in one output (expected -120)");
}

#[test]
fn an_object_on_a_seam_of_opposite_tiles_splits() {
    let mut board = Board::new();
    place(&mut board, &[(0, 0), (1, 0)], BlockObjectMode::Input, 1, 1);
    place(&mut board, &[(5, 5)], BlockObjectMode::Output, 2, 1);
    board.place_tile(TileType::PushTile, pos(0, 0), Direction::Left);
    board.place_tile(TileType::PushTile, pos(1, 0), Direction::Right);
    assert!(board.process_start().is_ok());
    assert!(carried_on(board.process_step()));
    let flying = board.activeblockobjects();
    assert_eq!(flying.len(), 2);
    assert_eq!(cells_of(&flying[0]), vec![(-1, 0)]);
    assert_eq!(flying[0].id, 0);
    assert_eq!(cells_of(&flying[1]), vec![(2, 0)]);
    assert_eq!(flying[1].id, 1);
    assert_eq!(flying[1].anim, BlockObjectAnimation::Translation { x: 1, y: 0 });
}

#[test]
fn a_seam_that_is_not_covered_fails_the_tick() {
    let mut board = Board::new();
    place(&mut board, &[(0, 0), (1, 0), (0, 1), (1, 1)], BlockObjectMode::Input, 1, 1);
    place(&mut board, &[(5, 5)], BlockObjectMode::Output, 2, 1);
    board.place_tile(TileType::PushTile, pos(0, 0), Direction::Left);
    board.place_tile(TileType::PushTile, pos(1, 0), Direction::Right);
    assert!(board.process_start().is_ok());
    let (message, places) = failure(board.process_step());
    assert_eq!(message, "Attempted to move block in multiple directions");
    assert_eq!(places, vec![(0, 0), (1, 0)]);
}

#[test]
fn a_horizontal_seam_parts_an_object_up_and_down() {
    let rel = vec![
        Tile::new_directional(TileType::PushTile, pos(0, 3), Direction::Down),
        Tile::new_directional(TileType::PushTile, pos(0, 2), Direction::Up),
    ];
    let tall = object(&[(0, 2), (0, 3)], BlockObjectMode::Processing, -1, 0);
    assert_eq!(resolve(&rel, &tall), Resolution::SplitHori { seam: 2 });
}

#[test]
fn tiles_on_the_wrong_side_of_the_seam_fail() {
    let rel = vec![
        Tile::new_directional(TileType::PushTile, pos(0, 0), Direction::Right),
        Tile::new_directional(TileType::PushTile, pos(1, 0), Direction::Left),
    ];
    let wide = object(&[(0, 0), (1, 0)], BlockObjectMode::Processing, -1, 0);
    assert_eq!(resolve(&rel, &wide), Resolution::DirectionConflict);
}

#[test]
fn no_tile_means_no_move_and_one_direction_means_that_move() {
    let single = object(&[(0, 0)], BlockObjectMode::Processing, -1, 0);
    assert_eq!(resolve(&Vec::new(), &single), Resolution::Whole(MovementType::NoMove));
    let rel = vec![Tile::new_directional(TileType::DelayTile, pos(0, 0), Direction::Up)];
    assert_eq!(
        resolve(&rel, &single),
        Resolution::Whole(MovementType::Translation(Direction::Up))
    );
    let rel = vec![Tile::new(TileType::RotTileCCW, pos(0, 0))];
    assert_eq!(
        resolve(&rel, &single),
        Resolution::Whole(MovementType::Rotation { cw: false, around: pos(0, 0) })
    );
}

#[test]
fn alternating_tiles_turn_round_after_acting_and_are_restored() {
    let mut board = Board::new();
    place(&mut board, &[(0, 0)], BlockObjectMode::Input, 1, 1);
    place(&mut board, &[(5, 5)], BlockObjectMode::Output, 2, 1);
    board.place_tile(TileType::AltTile, pos(0, 0), Direction::Right);
    board.place_tile(TileType::AltTile, pos(3, 3), Direction::Up);
    assert!(board.process_start().is_ok());
    assert!(carried_on(board.process_step()));
    assert_eq!(board.tiles()[0].get_dir(), Direction::Left);
    assert_eq!(board.tiles()[1].get_dir(), Direction::Up);
    assert_eq!(cells_of(&board.activeblockobjects()[0]), vec![(1, 0)]);
    assert!(board.process_end().is_ok());
    assert_eq!(board.tiles()[0].get_dir(), Direction::Right);
    assert_eq!(board.activeblockobjects().len(), 0);
}

#[test]
fn alternating_tiles_turn_round_even_when_objects_collide() {
    let mut board = Board::new();
    place(&mut board, &[(0, 0)], BlockObjectMode::Input, 1, 1);
    place(&mut board, &[(2, 0)], BlockObjectMode::Input, 2, 1);
    place(&mut board, &[(5, 5)], BlockObjectMode::Output, 3, 1);
    board.place_tile(TileType::AltTile, pos(0, 0), Direction::Right);
    board.place_tile(TileType::PushTile, pos(2, 0), Direction::Left);
    assert!(board.process_start().is_ok());
    let (message, _) = failure(board.process_step());
    assert_eq!(message, "Collision occured");
    assert_eq!(board.tiles()[0].get_dir(), Direction::Left);
}

#[test]
fn inputs_spawn_on_even_ticks_only() {
    let mut board = Board::new();
    place(&mut board, &[(0, 0)], BlockObjectMode::Input, 1, 2);
    place(&mut board, &[(9, 9)], BlockObjectMode::Output, 2, 5);
    board.place_tile(TileType::PushTile, pos(0, 0), Direction::Right);
    board.place_tile(TileType::PushTile, pos(1, 0), Direction::Right);
    board.place_tile(TileType::PushTile, pos(2, 0), Direction::Right);
    assert!(board.process_start().is_ok());
    assert!(carried_on(board.process_step()));
    assert_eq!(board.activeblockobjects().len(), 1);
    assert!(carried_on(board.process_step()));
    assert_eq!(board.activeblockobjects().len(), 1);
    assert_eq!(board.blockobjects()[0].counter, 1);
    assert!(carried_on(board.process_step()));
    assert_eq!(board.activeblockobjects().len(), 2);
    assert_eq!(board.blockobjects()[0].counter, 0);
    assert!(carried_on(board.process_step()));
    assert_eq!(board.activeblockobjects().len(), 2);
    // the first copy rests beyond the last tile, and the second runs into it
    let (message, places) = failure(board.process_step());
    assert_eq!(message, "Collision occured");
    assert_eq!(places, vec![(3, 0)]);
}

#[test]
fn a_run_starts_with_fresh_counters() {
    let mut board = Board::new();
    place(&mut board, &[(0, 0)], BlockObjectMode::Input, 1, 3);
    assert_eq!(board.blockobjects()[0].counter, 0);
    assert!(board.process_start().is_ok());
    assert_eq!(board.blockobjects()[0].counter, 3);
    assert_eq!(board.game_ticks(), 0);
}

#[test]
fn update_runs_the_ticks_that_are_due() {
    let mut board = Board::new();
    place(&mut board, &[(0, 0)], BlockObjectMode::Input, 1, 1);
    place(&mut board, &[(1, 0)], BlockObjectMode::Output, 2, 1);
    board.place_tile(TileType::PushTile, pos(0, 0), Direction::Right);
    assert!(matches!(board.update(1_000_000_000, &LevelMode::Building), Ok(false)));
    assert_eq!(board.game_ticks(), 0);
    assert!(board.process_start().is_ok());
    // the first tick is due at once
    assert!(matches!(board.update(0, &LevelMode::Running), Ok(false)));
    assert_eq!(board.game_ticks(), 1);
    assert!(matches!(board.update(399_999_999, &LevelMode::Running), Ok(false)));
    assert_eq!(board.game_ticks(), 1);
    assert!(matches!(board.update(1, &LevelMode::Running), Ok(false)));
    assert_eq!(board.game_ticks(), 2);
    assert!(matches!(board.update(400_000_000, &LevelMode::Running), Ok(true)));
}

#[test]
fn update_catches_up_after_a_pause() {
    let mut board = Board::new();
    place(&mut board, &[(0, 0)], BlockObjectMode::Input, 1, 1);
    place(&mut board, &[(9, 9)], BlockObjectMode::Output, 2, 1);
    assert!(board.process_start().is_ok());
    assert!(matches!(board.update(1_250_000_000, &LevelMode::Running), Ok(false)));
    assert_eq!(board.game_ticks(), 4);
}

#[test]
fn a_board_out_of_range_fails_before_its_tick() {
    let mut board = Board::new();
    place(&mut board, &[(0, 0)], BlockObjectMode::Input, 1, 1);
    place(&mut board, &[(9, 9)], BlockObjectMode::Output, 2, 1);
    board.place_tile(TileType::PushTile, pos(600_000_000, 0), Direction::Right);
    assert!(!board.check_limits());
    assert!(board.process_start().is_ok());
    let (message, places) = failure(board.update(0, &LevelMode::Running));
    assert_eq!(message, "Board out of range");
    assert!(places.is_empty());
    assert_eq!(board.game_ticks(), 0);
}

#[test]
fn tiles_are_placed_replaced_turned_and_removed() {
    let mut board = Board::new();
    assert_eq!(board.place_tile(TileType::PushTile, pos(1, 1), Direction::Up), 0);
    assert_eq!(board.place_tile(TileType::AltTile, pos(2, 1), Direction::Left), 1);
    assert_eq!(board.place_tile(TileType::PrioTile, pos(1, 1), Direction::Down), 0);
    assert_eq!(board.find_tile(pos(2, 1)), Some(1));
    assert_eq!(board.find_tile(pos(3, 1)), None);
    assert_eq!(board.tiles().len(), 2);
    assert_eq!(board.tiles()[0].get_type(), TileType::PrioTile);
    board.rotate_tile_cw(pos(1, 1));
    assert_eq!(board.tiles()[0].get_dir(), Direction::Left);
    board.rotate_tile_ccw(pos(2, 1));
    assert_eq!(board.tiles()[1].get_dir(), Direction::Down);
    board.rotate_tile_cw(pos(8, 8));
    board.remove_tile(pos(1, 1));
    assert_eq!(board.tiles().len(), 1);
    assert_eq!(board.tiles()[0].get_pos(), pos(2, 1));
    board.remove_tile(pos(1, 1));
    assert_eq!(board.tiles().len(), 1);
}

#[test]
fn the_board_tells_whether_an_object_can_be_placed() {
    let mut small = object(&[(3, 3), (4, 3)], BlockObjectMode::Input, 1, 1);
    assert!(Board::placement_fits(&mut small, pos(i32::MAX - 1, i32::MIN + 3)));
    // the step itself must be a number that can be held
    assert!(!Board::placement_fits(&mut small, pos(i32::MAX - 1, i32::MIN)));
    assert!(!Board::placement_fits(&mut small, pos(i32::MAX, 0)));
    let mut far = object(&[(i32::MIN, 0)], BlockObjectMode::Input, 1, 1);
    assert!(!Board::placement_fits(&mut far, pos(0, 0)));
    assert!(Board::placement_fits(&mut far, pos(-1, 0)));
    let mut nothing = BlockObject::new();
    assert!(Board::placement_fits(&mut nothing, pos(i32::MAX, i32::MAX)));
}

#[test]
fn a_click_puts_down_what_is_held() {
    let mut board = Board::new();
    let mut held = Holding::Tile {
        tile: Tile::new_directional(TileType::DelayTile, pos(0, 0), Direction::Down),
    };
    assert!(board.mouse_click_event(pos(2, 2), &mut held, true).is_ok());
    assert!(matches!(held, Holding::Tile { .. }));
    assert!(board.mouse_click_event(pos(3, 2), &mut held, false).is_ok());
    assert!(matches!(held, Holding::Nothing));
    assert!(board.mouse_click_event(pos(4, 2), &mut held, false).is_ok());
    let tiles = board.tiles();
    assert_eq!(tiles.len(), 2);
    assert_eq!(tiles[1].get_pos(), pos(3, 2));
    assert_eq!(tiles[1].get_dir(), Direction::Down);
    assert_eq!(tiles[1].get_type(), TileType::DelayTile);

    let mut held = Holding::BlockObject {
        blockobject: object(&[(5, 5), (5, 6)], BlockObjectMode::Input, 1, 2),
    };
    assert!(board.mouse_click_event(pos(0, 0), &mut held, false).is_ok());
    assert!(matches!(held, Holding::Nothing));
    assert_eq!(cells_of(&board.blockobjects()[0]), vec![(0, 0), (0, 1)]);
    let mut held = Holding::BlockObject { blockobject: BlockObject::new() };
    assert!(board.mouse_click_event(pos(0, 0), &mut held, false).is_err());
    assert!(matches!(held, Holding::BlockObject { .. }));
    assert_eq!(board.num_blockobjects(), 1);
}

#[test]
fn keys_turn_and_remove_the_tile_under_the_cursor() {
    let mut board = Board::new();
    board.place_tile(TileType::PushTile, pos(1, 1), Direction::Up);
    board.key_down_event(LevelKey::Rotate { reverse: false }, pos(1, 1));
    assert_eq!(board.tiles()[0].get_dir(), Direction::Right);
    board.key_down_event(LevelKey::Rotate { reverse: true }, pos(1, 1));
    board.key_down_event(LevelKey::Rotate { reverse: true }, pos(1, 1));
    assert_eq!(board.tiles()[0].get_dir(), Direction::Left);
    board.key_down_event(LevelKey::Toggle, pos(1, 1));
    board.key_down_event(LevelKey::Other, pos(1, 1));
    board.key_down_event(LevelKey::Remove, pos(0, 1));
    assert_eq!(board.tiles().len(), 1);
    board.key_down_event(LevelKey::Remove, pos(1, 1));
    assert_eq!(board.tiles().len(), 0);
}

#[test]
fn the_board_keeps_time() {
    let mut board = Board::new();
    assert_eq!(board.animation_duration(), 400_000_000);
    assert_eq!(board.animation_timer(), 0);
    place(&mut board, &[(9, 9)], BlockObjectMode::Output, 1, 1);
    assert!(board.process_start().is_ok());
    assert_eq!(board.animation_timer(), 400_000_000);
    assert!(matches!(board.update(100, &LevelMode::Running), Ok(false)));
    assert_eq!(board.animation_timer(), 100);
    assert_eq!(board.game_ticks(), 1);
}

#[test]
fn a_board_without_outputs_is_won_at_once() {
    let mut board = Board::new();
    place(&mut board, &[(0, 0)], BlockObjectMode::Input, 1, 1);
    assert!(board.process_start().is_ok());
    assert!(matches!(board.process_step(), Ok(true)));
    assert_eq!(board.activeblockobjects().len(), 0);
    assert_eq!(board.blockobjects()[0].counter, 1);
}

#[test]
fn just_arrived_objects_wait_one_tick_before_the_output_takes_them() {
    let mut board = Board::new();
    place(&mut board, &[(0, 0)], BlockObjectMode::Input, 1, 1);
    place(&mut board, &[(0, 0)], BlockObjectMode::Output, 2, 1);
    assert_eq!(board.num_blockobjects(), 1);
    let mut board = Board::new();
    place(&mut board, &[(0, 0)], BlockObjectMode::Input, 1, 2);
    place(&mut board, &[(1, 0)], BlockObjectMode::Output, 2, 2);
    board.place_tile(TileType::DelayTile, pos(0, 0), Direction::Right);
    assert!(board.process_start().is_ok());
    assert!(carried_on(board.process_step()));
    assert_eq!(board.blockobjects()[1].counter, 2);
    assert!(carried_on(board.process_step()));
    assert_eq!(board.blockobjects()[1].counter, 1);
    assert!(carried_on(board.process_step()));
    assert!(carried_on(board.process_step()));
    assert_eq!(board.blockobjects()[1].counter, 0);
    assert!(matches!(board.process_step(), Ok(true)));
}

#[test]
fn every_object_in_flight_has_an_identity_of_its_own() {
    let mut board = Board::new();
    place(&mut board, &[(0, 0), (1, 0)], BlockObjectMode::Input, 7, 2);
    place(&mut board, &[(9, 9)], BlockObjectMode::Output, -1, 9);
    for x in [-3, -2, -1, 0] {
        board.place_tile(TileType::PushTile, pos(x, 0), Direction::Left);
    }
    for x in [1, 2, 3, 4] {
        board.place_tile(TileType::PushTile, pos(x, 0), Direction::Right);
    }
    assert!(board.process_start().is_ok());
    assert!(carried_on(board.process_step()));
    // the copy, then the part that left it
    let ids: Vec<i32> = board.activeblockobjects().iter().map(|b| b.id).collect();
    assert_eq!(ids, vec![0, 1]);
    assert!(carried_on(board.process_step()));
    assert!(carried_on(board.process_step()));
    let flying = board.activeblockobjects();
    let ids: Vec<i32> = flying.iter().map(|b| b.id).collect();
    assert_eq!(ids, vec![0, 1, 2, 3]);
    assert_eq!(cells_of(&flying[0]), vec![(-3, 0)]);
    assert_eq!(cells_of(&flying[3]), vec![(2, 0)]);
    // the placed objects keep the identities they were placed with
    assert_eq!(board.blockobjects()[0].id, 7);
    assert_eq!(board.blockobjects()[1].id, -1);
    // the next run counts from the beginning again
    assert!(board.process_end().is_ok());
    assert!(board.process_start().is_ok());
    assert!(carried_on(board.process_step()));
    let ids: Vec<i32> = board.activeblockobjects().iter().map(|b| b.id).collect();
    assert_eq!(ids, vec![0, 1]);
}
