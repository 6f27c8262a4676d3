use conveyor_chaos::block::{Block, BlockObject, BlockObjectAnimation, BlockObjectMode};
use conveyor_chaos::helpers::{BoardPos, Direction, MovementType};
use conveyor_chaos::motion::move_object;
use conveyor_chaos::text::decimal_text;
use ggez::GameError;

fn pos(x: i32, y: i32) -> BoardPos {
    BoardPos { x, y }
}

fn object(cells: &[(i32, i32)]) -> BlockObject {
    let mut blocks = Vec::new();
    for &(x, y) in cells {
        blocks.push(Block::new(pos(x, y)));
    }
    BlockObject::from_blocklist(blocks, BlockObjectMode::Processing)
}

fn cells_of(bo: &BlockObject) -> Vec<(i32, i32)> {
    bo.block_locations().iter().map(|p| (p.x, p.y)).collect()
}

fn sorted(mut v: Vec<i32>) -> Vec<i32> {
    v.sort();
    v
}

#[test]
fn bounds_of_an_l_shape() {
    let mut bo = object(&[(2, 5), (2, 6), (3, 6)]);
    assert_eq!(bo.get_top_left().unwrap(), pos(2, 5));
    assert_eq!(bo.get_bottom_right().unwrap(), pos(3, 6));
    assert!(bo.generate_bounds().is_ok());
}

#[test]
fn bounds_mix_the_extremes_of_different_blocks() {
    let mut bo = object(&[(4, -1), (-3, 2), (0, 7)]);
    assert_eq!(bo.get_top_left().unwrap(), pos(-3, -1));
    assert_eq!(bo.get_bottom_right().unwrap(), pos(4, 7));
}

#[test]
fn bounds_of_nothing_are_an_error() {
    let mut bo = BlockObject::new();
    match bo.get_top_left() {
        Err(GameError::RenderError(text)) => {
            assert_eq!(text, "Cannot render blockobject with no blocks")
        }
        _ => panic!("an empty object has no top left corner"),
    }
    assert!(matches!(bo.get_bottom_right(), Err(GameError::RenderError(_))));
    assert!(matches!(bo.generate_bounds(), Err(GameError::RenderError(_))));
}

#[test]
fn a_new_object_is_an_empty_template_in_flight() {
    let bo = BlockObject::new();
    assert_eq!(bo.blocks.len(), 0);
    assert!(bo.mode == BlockObjectMode::Processing);
    assert_eq!(bo.id, -1);
    assert_eq!(bo.counter, 0);
    assert_eq!(bo.start_counter, 0);
    assert!(bo.just_moved);
    assert_eq!(bo.anim, BlockObjectAnimation::Translation { x: 0, y: 0 });
    let made = BlockObject::from_blocklist(vec![Block::new(pos(1, 2))], BlockObjectMode::Output);
    assert!(made.mode == BlockObjectMode::Output);
    assert_eq!(made.id, -1);
    assert_eq!(cells_of(&made), vec![(1, 2)]);
}

#[test]
fn block_formulas() {
    let mut b = Block::new(pos(3, 4));
    b.translate(-5, 2);
    assert_eq!(b.pos, pos(-2, 6));
    let mut b = Block::new(pos(3, 4));
    b.rotate_cw(pos(1, 1));
    assert_eq!(b.pos, pos(-2, 3));
    let mut b = Block::new(pos(3, 4));
    b.rotate_ccw(pos(1, 1));
    assert_eq!(b.pos, pos(4, -1));
}

#[test]
fn quarter_turn_clockwise_about_a_pivot() {
    let mut bo = object(&[(1, 0), (2, 0)]);
    bo.rotate_cw(pos(1, 1));
    assert_eq!(cells_of(&bo), vec![(2, 1), (2, 2)]);
    assert_eq!(bo.get_top_left().unwrap(), pos(2, 1));
}

#[test]
fn four_quarter_turns_bring_an_object_back() {
    let start = [(2, 5), (2, 6), (3, 6), (-4, 0)];
    let mut bo = object(&start);
    let pivot = pos(7, -3);
    for _ in 0..4 {
        bo.rotate_cw(pivot);
    }
    assert_eq!(cells_of(&bo), start.to_vec());
    for _ in 0..4 {
        bo.rotate_ccw(pivot);
    }
    assert_eq!(cells_of(&bo), start.to_vec());
}

#[test]
fn a_turn_and_its_reverse_cancel() {
    let start = [(0, 0), (1, 0), (1, 1)];
    let mut bo = object(&start);
    bo.rotate_cw(pos(-2, 9));
    assert_ne!(cells_of(&bo), start.to_vec());
    bo.rotate_ccw(pos(-2, 9));
    assert_eq!(cells_of(&bo), start.to_vec());
    bo.rotate_ccw(pos(5, 5));
    bo.rotate_cw(pos(5, 5));
    assert_eq!(cells_of(&bo), start.to_vec());
}

#[test]
fn moving_there_and_back_restores_cells_and_bounds() {
    let start = [(0, 0), (1, 0), (1, 1)];
    let mut bo = object(&start);
    let tl = bo.get_top_left().unwrap();
    let br = bo.get_bottom_right().unwrap();
    bo.translate(12, -7);
    assert_eq!(cells_of(&bo), vec![(12, -7), (13, -7), (13, -6)]);
    assert_eq!(bo.get_top_left().unwrap(), pos(12, -7));
    assert_eq!(bo.get_bottom_right().unwrap(), pos(13, -6));
    bo.translate(-12, 7);
    assert_eq!(cells_of(&bo), start.to_vec());
    assert_eq!(bo.get_top_left().unwrap(), tl);
    assert_eq!(bo.get_bottom_right().unwrap(), br);
}

#[test]
fn moving_an_empty_object_changes_nothing() {
    let mut bo = BlockObject::new();
    bo.translate(3, 3);
    assert_eq!(bo.blocks.len(), 0);
    assert!(bo.get_top_left().is_err());
}

#[test]
fn bounds_follow_every_change_of_shape() {
    let mut bo = object(&[(0, 0), (3, 0)]);
    assert_eq!(bo.get_bottom_right().unwrap(), pos(3, 0));
    let right = bo.split_vert_seam(1);
    assert_eq!(bo.get_bottom_right().unwrap(), pos(0, 0));
    let mut right = right;
    assert_eq!(right.get_top_left().unwrap(), pos(3, 0));
    bo.merge(&mut right);
    assert_eq!(bo.get_bottom_right().unwrap(), pos(3, 0));
    bo.rotate_cw(pos(0, 0));
    assert_eq!(bo.get_top_left().unwrap(), pos(0, 0));
    assert_eq!(bo.get_bottom_right().unwrap(), pos(0, 3));
}

#[test]
fn splitting_and_merging_keeps_the_cells() {
    let start = [(0, 0), (2, 0), (1, 1), (3, 1), (1, 0)];
    let mut left = object(&start);
    left.id = 4;
    left.counter = 2;
    let mut right = left.split_vert_seam(1);
    assert_eq!(cells_of(&left), vec![(0, 0), (1, 1), (1, 0)]);
    assert_eq!(cells_of(&right), vec![(2, 0), (3, 1)]);
    assert_eq!(left.id, 4);
    assert_eq!(left.counter, 2);
    assert_eq!(right.id, -1);
    assert!(right.mode == BlockObjectMode::Processing);
    assert!(right.just_moved);
    left.merge(&mut right);
    assert_eq!(right.blocks.len(), 0);
    let mut got = cells_of(&left);
    got.sort();
    let mut want = start.to_vec();
    want.sort();
    assert_eq!(got, want);
}

#[test]
fn splitting_along_a_row() {
    let mut top = object(&[(0, 0), (0, 1), (0, 2), (1, 2)]);
    let bottom = top.split_hori_seam(1);
    assert_eq!(cells_of(&top), vec![(0, 0), (0, 1)]);
    assert_eq!(cells_of(&bottom), vec![(0, 2), (1, 2)]);
    let mut all = object(&[(0, 0)]);
    let none = all.split_hori_seam(5);
    assert_eq!(cells_of(&all), vec![(0, 0)]);
    assert_eq!(none.blocks.len(), 0);
}

#[test]
fn merging_overlapping_objects_lists_cells_twice() {
    let mut a = object(&[(0, 0), (1, 0)]);
    let mut b = object(&[(1, 0)]);
    a.merge(&mut b);
    assert_eq!(cells_of(&a), vec![(0, 0), (1, 0), (1, 0)]);
}

#[test]
fn overlap_is_the_same_from_both_sides() {
    let mut a = object(&[(0, 0), (1, 0), (2, 0)]);
    let mut b = object(&[(2, 0), (2, 1)]);
    let mut c = object(&[(1, 1)]);
    let mut nothing = BlockObject::new();
    assert!(a.has_overlap(&mut b));
    assert!(b.has_overlap(&mut a));
    assert!(!a.has_overlap(&mut c));
    assert!(!c.has_overlap(&mut a));
    // the bounding boxes of `b` and `c` meet, their cells do not
    assert!(!b.has_overlap(&mut c));
    assert!(!c.has_overlap(&mut b));
    assert!(!a.has_overlap(&mut nothing));
    assert!(!nothing.has_overlap(&mut a));
}

#[test]
fn exact_overlap_compares_the_sets_of_cells() {
    let mut a = object(&[(0, 0), (1, 0), (1, 1)]);
    let mut same = object(&[(1, 1), (0, 0), (1, 0)]);
    let mut twice = object(&[(1, 1), (0, 0), (1, 0), (0, 0)]);
    let mut part = object(&[(0, 0), (1, 0)]);
    let mut more = object(&[(0, 0), (1, 0), (1, 1), (0, 1)]);
    let mut far = object(&[(10, 10), (11, 10), (11, 11)]);
    assert!(a.exact_overlap(&mut same));
    assert!(same.exact_overlap(&mut a));
    assert!(a.exact_overlap(&mut twice));
    assert!(!a.exact_overlap(&mut part));
    assert!(!part.exact_overlap(&mut a));
    assert!(!a.exact_overlap(&mut more));
    assert!(!a.exact_overlap(&mut far));
    let mut nothing = BlockObject::new();
    let mut nothing_too = BlockObject::new();
    assert!(nothing.exact_overlap(&mut nothing_too));
    assert!(!nothing.exact_overlap(&mut a));
    assert!(!a.exact_overlap(&mut nothing));
}

#[test]
fn overlap_with_a_cell() {
    let mut a = object(&[(0, 0), (2, 0), (2, 2)]);
    assert!(a.overlap_tile(pos(2, 0)));
    assert!(!a.overlap_tile(pos(1, 0)));
    assert!(!a.overlap_tile(pos(1, 1)));
    assert!(!a.overlap_tile(pos(3, 3)));
    assert!(!BlockObject::new().overlap_tile(pos(0, 0)));
}

#[test]
fn seams_list_the_lines_that_cross_them() {
    let a = object(&[(0, 0), (1, 0), (0, 1), (1, 2), (0, 2), (1, 5), (0, 0)]);
    assert_eq!(sorted(a.get_vert_seam(0)), vec![0, 2]);
    assert_eq!(sorted(a.get_vert_seam(1)), Vec::<i32>::new());
    assert_eq!(sorted(a.get_vert_seam(-1)), Vec::<i32>::new());
    assert_eq!(sorted(a.get_hori_seam(0)), vec![0]);
    assert_eq!(sorted(a.get_hori_seam(1)), vec![0]);
    assert_eq!(sorted(a.get_hori_seam(2)), Vec::<i32>::new());
    assert_eq!(a.get_vert_seam(i32::MAX), Vec::<i32>::new());
    assert_eq!(a.get_hori_seam(i32::MAX), Vec::<i32>::new());
    // in the order in which the blocks come upon them
    let b = object(&[(0, 2), (1, 2), (5, 5), (0, 0), (1, 0), (0, 2), (0, 1), (1, 1)]);
    assert_eq!(b.get_vert_seam(0), vec![2, 0, 1]);
    assert_eq!(b.get_hori_seam(0), vec![0, 1]);
    let edge = object(&[(i32::MAX, i32::MAX), (i32::MAX - 1, i32::MAX)]);
    assert_eq!(edge.get_vert_seam(i32::MAX - 1), vec![i32::MAX]);
    assert_eq!(edge.get_hori_seam(i32::MAX - 1), Vec::<i32>::new());
}

#[test]
fn a_copy_has_the_same_cells_and_fields() {
    let mut a = object(&[(0, 0), (1, 0)]);
    a.id = 9;
    a.counter = 3;
    a.start_counter = 5;
    a.just_moved = false;
    a.mode = BlockObjectMode::Input;
    let _ = a.get_top_left();
    let mut b = a.clone();
    assert_eq!(cells_of(&b), vec![(0, 0), (1, 0)]);
    assert_eq!(b.id, 9);
    assert_eq!(b.counter, 3);
    assert_eq!(b.start_counter, 5);
    assert!(!b.just_moved);
    assert!(b.mode == BlockObjectMode::Input);
    b.translate(1, 0);
    assert_eq!(cells_of(&a), vec![(0, 0), (1, 0)]);
    assert_eq!(b.get_top_left().unwrap(), pos(1, 0));
}

#[test]
fn moves_that_leave_the_grid_are_found_out() {
    let edge = object(&[(i32::MAX, 0), (0, i32::MIN)]);
    assert!(edge.can_translate(-1, 1));
    assert!(!edge.can_translate(1, 0));
    assert!(!edge.can_translate(0, -1));
    assert!(!edge.can_rotate(pos(0, 0), true));
    assert!(edge.can_rotate(pos(0, 0), false));
    assert!(!edge.can_rotate(pos(0, 1), false));
    let inside = object(&[(5, -5)]);
    assert!(inside.can_rotate(pos(0, 0), true));
    assert!(inside.can_rotate(pos(i32::MAX, 0), false));
    assert!(!inside.can_rotate(pos(i32::MAX, i32::MAX), true));
}

#[test]
fn a_move_shows_in_the_animation() {
    let mut a = object(&[(0, 0)]);
    a.just_moved = false;
    move_object(&mut a, MovementType::NoMove);
    assert_eq!(a.anim, BlockObjectAnimation::Translation { x: 0, y: 0 });
    assert!(!a.just_moved);
    move_object(&mut a, MovementType::Rotation { cw: false, around: pos(1, 0) });
    assert_eq!(cells_of(&a), vec![(1, 1)]);
    assert_eq!(a.anim, BlockObjectAnimation::Rotation { quarter_turns: 1, around: pos(1, 0) });
    assert!(!a.just_moved);
    move_object(&mut a, MovementType::Translation(Direction::Up));
    assert_eq!(cells_of(&a), vec![(1, 0)]);
    assert_eq!(a.anim, BlockObjectAnimation::Translation { x: 0, y: -1 });
    assert!(a.just_moved);
}

#[test]
fn directions_turn_in_a_cycle() {
    let all = [Direction::Up, Direction::Right, Direction::Down, Direction::Left];
    for i in 0..4 {
        assert_eq!(all[i].clockwise(), all[(i + 1) % 4]);
        assert_eq!(all[i].counterclockwise(), all[(i + 3) % 4]);
        assert_eq!(all[i].clockwise().counterclockwise(), all[i]);
    }
    assert_eq!(Direction::Right.delta(), (1, 0));
    assert_eq!(Direction::Down.delta(), (0, 1));
    assert_eq!(Direction::Left.delta(), (-1, 0));
    assert_eq!(Direction::Up.delta(), (0, -1));
    assert_eq!(Direction::Right.to_string(), "right");
    assert_eq!(Direction::Down.to_string(), "down");
    assert_eq!(Direction::Left.to_string(), "left");
    assert_eq!(Direction::Up.to_string(), "up");
}

#[test]
fn numbers_in_decimal() {
    assert_eq!(decimal_text(0), "0");
    assert_eq!(decimal_text(7), "7");
    assert_eq!(decimal_text(10), "10");
    assert_eq!(decimal_text(1234567890), "1234567890");
    assert_eq!(decimal_text(-1), "-1");
    assert_eq!(decimal_text(i32::MAX), "2147483647");
    assert_eq!(decimal_text(i32::MIN), "-2147483648");
}

#[test]
fn the_neighbourhood_of_a_cell() {
    let bo = object(&[(0, 0), (1, 0), (1, 1)]);
    assert_eq!(
        bo.neighbourhood(pos(1, 0)),
        [[false, false, false], [true, true, false], [false, true, false]]
    );
    assert_eq!(
        bo.neighbourhood(pos(0, 1)),
        [[false, true, true], [false, false, true], [false, false, false]]
    );
    assert_eq!(bo.neighbourhood(pos(9, 9)), [[false; 3]; 3]);
    let edge = object(&[(i32::MAX, i32::MIN)]);
    assert_eq!(
        edge.neighbourhood(pos(i32::MAX, i32::MIN)),
        [[false, false, false], [false, true, false], [false, false, false]]
    );
}

#[test]
fn corners_join_where_the_object_goes_on() {
    let alone = [[false, false, false], [false, true, false], [false, false, false]];
    assert_eq!(Block::joined_corners(alone), [false, false, false, false]);
    let right = [[false, false, false], [false, true, true], [false, false, false]];
    assert_eq!(Block::joined_corners(right), [false, true, true, false]);
    let across = [[true, false, false], [false, true, false], [false, false, false]];
    assert_eq!(Block::joined_corners(across), [true, false, false, false]);
    let below = [[false, false, false], [false, true, false], [false, true, false]];
    assert_eq!(Block::joined_corners(below), [false, false, true, true]);
    // a cell that is not covered: a corner is filled between two covered cells
    let nook = [[false, true, false], [true, false, false], [false, false, false]];
    assert_eq!(Block::joined_corners(nook), [true, false, false, false]);
    let ring = [[true, true, true], [true, false, true], [true, true, true]];
    assert_eq!(Block::joined_corners(ring), [true, true, true, true]);
    let diagonal = [[true, false, false], [false, false, false], [false, false, true]];
    assert_eq!(Block::joined_corners(diagonal), [false, false, false, false]);
}

#[test]
fn outlines_run_where_the_output_ends() {
    let alone = [[false, false, false], [false, true, false], [false, false, false]];
    assert_eq!(Block::outlined_sides(alone), [true, true, true, true]);
    assert_eq!(Block::outlined_corners(alone), [true, true, true, true]);
    let corner = [[true, true, false], [false, true, true], [false, false, true]];
    assert_eq!(Block::outlined_sides(corner), [false, false, true, true]);
    assert_eq!(Block::outlined_corners(corner), [false, true, true, false]);
    let empty = [[true, true, true], [true, false, true], [true, true, true]];
    assert_eq!(Block::outlined_sides(empty), [false, false, false, false]);
    assert_eq!(Block::outlined_corners(empty), [false, false, false, false]);
}
