//! What the tiles under a block object make of it in one tick: a move of the whole, a
//! split along a seam, or a conflict that ends the run.

use vstd::prelude::*;
use crate::block::BlockObject;
use crate::cells::{crosses_hori_seam, crosses_vert_seam};
use crate::helpers::{Direction, MovementType, Point};
use crate::tile::{tile_views, Tile, TileType, TileView};

verus! {

/// What one tick does with one block object.
#[derive(Clone, Copy, PartialEq, Eq, Structural, Debug)]
pub enum Resolution {
    /// The object moves, turns or rests as a whole.
    Whole(MovementType),
    /// The object parts between columns `seam` and `seam + 1`; the halves move left and right.
    SplitVert { seam: i32 },
    /// The object parts between rows `seam` and `seam + 1`; the halves move up and down.
    SplitHori { seam: i32 },
    /// More than one tile would turn the object.
    RotateConflict,
    /// The tiles push the object in several directions and no seam parts it cleanly.
    DirectionConflict,
}

/// One of the tiles pushes toward `d`.
pub open spec fn pushed_toward(rel: Seq<TileView>, d: Direction) -> bool {
    exists|i: int| 0 <= i < rel.len() && (#[trigger] rel[i]).tiletype.pushes() && rel[i].dir == d
}

/// The number of distinct directions in which the tiles push.
pub open spec fn directions_pushed(rel: Seq<TileView>) -> int {
    (if pushed_toward(rel, Direction::Up) {
        1int
    } else {
        0int
    }) + (if pushed_toward(rel, Direction::Down) {
        1int
    } else {
        0int
    }) + (if pushed_toward(rel, Direction::Left) {
        1int
    } else {
        0int
    }) + (if pushed_toward(rel, Direction::Right) {
        1int
    } else {
        0int
    })
}

/// The direction in which the tiles push, where they agree on one.
pub open spec fn sole_direction(rel: Seq<TileView>) -> Direction {
    if pushed_toward(rel, Direction::Up) {
        Direction::Up
    } else if pushed_toward(rel, Direction::Down) {
        Direction::Down
    } else if pushed_toward(rel, Direction::Left) {
        Direction::Left
    } else {
        Direction::Right
    }
}

/// One of the tiles lies on `p`.
pub open spec fn tile_on(rel: Seq<TileView>, p: Point) -> bool {
    exists|i: int| 0 <= i < rel.len() && (#[trigger] rel[i]).pos@ == p
}

/// Every tile points left and lies in a column of at most `seam`, or points right and
/// lies beyond it.
pub open spec fn sides_agree_vert(rel: Seq<TileView>, seam: int) -> bool {
    forall|i: int|
        0 <= i < rel.len() ==> match (#[trigger] rel[i]).dir {
            Direction::Left => rel[i].pos.x <= seam,
            Direction::Right => rel[i].pos.x > seam,
            _ => false,
        }
}

/// Every tile points up and lies in a row of at most `seam`, or points down and lies
/// beyond it.
pub open spec fn sides_agree_hori(rel: Seq<TileView>, seam: int) -> bool {
    forall|i: int|
        0 <= i < rel.len() ==> match (#[trigger] rel[i]).dir {
            Direction::Up => rel[i].pos.y <= seam,
            Direction::Down => rel[i].pos.y > seam,
            _ => false,
        }
}

/// Wherever the shape is solid on both sides of the vertical seam, a tile lies under
/// each of the two cells.
pub open spec fn seam_covered_vert(rel: Seq<TileView>, cells: Seq<Point>, seam: int) -> bool {
    forall|y: int| #[trigger]
        crosses_vert_seam(cells, seam, y) ==> tile_on(rel, Point { x: seam, y }) && tile_on(
            rel,
            Point { x: seam + 1, y },
        )
}

/// Wherever the shape is solid on both sides of the horizontal seam, a tile lies under
/// each of the two cells.
pub open spec fn seam_covered_hori(rel: Seq<TileView>, cells: Seq<Point>, seam: int) -> bool {
    forall|x: int| #[trigger]
        crosses_hori_seam(cells, seam, x) ==> tile_on(rel, Point { x, y: seam }) && tile_on(
            rel,
            Point { x, y: seam + 1 },
        )
}

/// The seam that the first tile proposes: the far edge of its own cell, seen in the
/// direction in which it points.
pub open spec fn proposed_seam(first: TileView) -> int {
    match first.dir {
        Direction::Left => first.pos.x as int,
        Direction::Right => first.pos.x - 1,
        Direction::Up => first.pos.y as int,
        Direction::Down => first.pos.y - 1,
    }
}

/// What becomes of a shape that its tiles push in more than one direction: it parts
/// along the seam that the first tile proposes, if every tile is on its own side of that
/// seam and the seam is covered; otherwise the tick fails.
pub open spec fn split_resolution(rel: Seq<TileView>, cells: Seq<Point>) -> Resolution {
    let seam = proposed_seam(rel[0]);
    if rel[0].dir == Direction::Left || rel[0].dir == Direction::Right {
        if sides_agree_vert(rel, seam) && seam_covered_vert(rel, cells, seam) {
            Resolution::SplitVert { seam: seam as i32 }
        } else {
            Resolution::DirectionConflict
        }
    } else {
        if sides_agree_hori(rel, seam) && seam_covered_hori(rel, cells, seam) {
            Resolution::SplitHori { seam: seam as i32 }
        } else {
            Resolution::DirectionConflict
        }
    }
}

/// What one tick does with a shape, given the tiles that act on it.
pub open spec fn resolution(rel: Seq<TileView>, cells: Seq<Point>) -> Resolution {
    if rel.len() > 0 && rel[0].tiletype.turns() {
        if rel.len() > 1 {
            Resolution::RotateConflict
        } else {
            Resolution::Whole(
                MovementType::Rotation {
                    cw: rel[0].tiletype == TileType::RotTileCW,
                    around: rel[0].pos,
                },
            )
        }
    } else if directions_pushed(rel) == 0 {
        Resolution::Whole(MovementType::NoMove)
    } else if directions_pushed(rel) == 1 {
        Resolution::Whole(MovementType::Translation(sole_direction(rel)))
    } else {
        split_resolution(rel, cells)
    }
}

/// One of the tiles lies on `(x, y)`.
fn has_tile_at(rel: &Vec<Tile>, x: i32, y: i32) -> (r: bool)
    ensures
        r == tile_on(tile_views(rel@), Point { x: x as int, y: y as int }),
{
    let n = rel.len();
    let mut i: usize = 0;
    while i < n
        invariant
            i <= n,
            n == rel.len(),
            forall|k: int|
                0 <= k < i ==> (#[trigger] tile_views(rel@)[k]).pos@ != (Point {
                    x: x as int,
                    y: y as int,
                }),
        decreases n - i,
    {
        let p = rel[i].get_pos();
        if p.x == x && p.y == y {
            assert(tile_views(rel@)[i as int].pos@ == (Point { x: x as int, y: y as int }));
            return true;
        }
        i += 1;
    }
    false
}

/// One of the tiles pushes toward `d`.
fn has_push_toward(rel: &Vec<Tile>, d: Direction) -> (r: bool)
    ensures
        r == pushed_toward(tile_views(rel@), d),
{
    let n = rel.len();
    let mut i: usize = 0;
    while i < n
        invariant
            i <= n,
            n == rel.len(),
            forall|k: int|
                0 <= k < i ==> !((#[trigger] tile_views(rel@)[k]).tiletype.pushes() && tile_views(
                    rel@,
                )[k].dir == d),
        decreases n - i,
    {
        if rel[i].get_type().is_push_tile() && rel[i].get_dir() == d {
            assert(tile_views(rel@)[i as int].tiletype.pushes() && tile_views(rel@)[i as int].dir
                == d);
            return true;
        }
        i += 1;
    }
    false
}

/// Every tile is on its own side of the vertical seam.
fn check_sides_vert(rel: &Vec<Tile>, seam: i32) -> (r: bool)
    ensures
        r == sides_agree_vert(tile_views(rel@), seam as int),
{
    let n = rel.len();
    let mut i: usize = 0;
    while i < n
        invariant
            i <= n,
            n == rel.len(),
            forall|k: int|
                0 <= k < i ==> match (#[trigger] tile_views(rel@)[k]).dir {
                    Direction::Left => tile_views(rel@)[k].pos.x <= seam,
                    Direction::Right => tile_views(rel@)[k].pos.x > seam,
                    _ => false,
                },
        decreases n - i,
    {
        let ok = match rel[i].get_dir() {
            Direction::Left => rel[i].get_pos().x <= seam,
            Direction::Right => rel[i].get_pos().x > seam,
            _ => false,
        };
        if !ok {
            assert(tile_views(rel@)[i as int] == rel@[i as int]@);
            return false;
        }
        i += 1;
    }
    true
}

/// Every tile is on its own side of the horizontal seam.
fn check_sides_hori(rel: &Vec<Tile>, seam: i32) -> (r: bool)
    ensures
        r == sides_agree_hori(tile_views(rel@), seam as int),
{
    let n = rel.len();
    let mut i: usize = 0;
    while i < n
        invariant
            i <= n,
            n == rel.len(),
            forall|k: int|
                0 <= k < i ==> match (#[trigger] tile_views(rel@)[k]).dir {
                    Direction::Up => tile_views(rel@)[k].pos.y <= seam,
                    Direction::Down => tile_views(rel@)[k].pos.y > seam,
                    _ => false,
                },
        decreases n - i,
    {
        let ok = match rel[i].get_dir() {
            Direction::Up => rel[i].get_pos().y <= seam,
            Direction::Down => rel[i].get_pos().y > seam,
            _ => false,
        };
        if !ok {
            assert(tile_views(rel@)[i as int] == rel@[i as int]@);
            return false;
        }
        i += 1;
    }
    true
}

/// The vertical seam is covered by tiles wherever the object crosses it.
fn check_cover_vert(rel: &Vec<Tile>, object: &BlockObject, seam: i32) -> (r: bool)
    ensures
        r == seam_covered_vert(tile_views(rel@), object.cells(), seam as int),
{
    let rows = object.get_vert_seam(seam);
    let ghost cells = object.cells();
    let ghost views = tile_views(rel@);
    let n = rows.len();
    let mut i: usize = 0;
    while i < n
        invariant
            i <= n,
            n == rows.len(),
            views == tile_views(rel@),
            cells == object.cells(),
            forall|y: i32|
                #[trigger] rows@.contains(y) <==> crosses_vert_seam(cells, seam as int, y as int),
            forall|k: int|
                0 <= k < i ==> tile_on(views, Point { x: seam as int, y: (#[trigger] rows@[k]) as int })
                    && tile_on(views, Point { x: seam + 1, y: rows@[k] as int }),
        decreases n - i,
    {
        let y = rows[i];
        assert(rows@.contains(y));
        assert(crosses_vert_seam(cells, seam as int, y as int));
        if seam == i32::MAX {
            proof {
                let q = Point { x: seam + 1, y: y as int };
                let k = choose|k: int| 0 <= k < cells.len() && cells[k] == q;
                assert(cells[k] == object.blocks@[k].pos@);
            }
            return false;
        }
        if !(has_tile_at(rel, seam, y) && has_tile_at(rel, seam + 1, y)) {
            return false;
        }
        i += 1;
    }
    proof {
        assert forall|y: int| #[trigger]
            crosses_vert_seam(cells, seam as int, y) implies tile_on(
            views,
            Point { x: seam as int, y },
        ) && tile_on(views, Point { x: seam + 1, y }) by {
            let q = Point { x: seam as int, y };
            let k = choose|k: int| 0 <= k < cells.len() && cells[k] == q;
            assert(cells[k] == object.blocks@[k].pos@);
            let row = object.blocks@[k].pos.y;
            assert(row as int == y);
            assert(rows@.contains(row));
            let j = choose|j: int| 0 <= j < rows@.len() && rows@[j] == row;
            assert(tile_on(views, Point { x: seam as int, y: rows@[j] as int }));
        }
    }
    true
}

/// The horizontal seam is covered by tiles wherever the object crosses it.
fn check_cover_hori(rel: &Vec<Tile>, object: &BlockObject, seam: i32) -> (r: bool)
    ensures
        r == seam_covered_hori(tile_views(rel@), object.cells(), seam as int),
{
    let columns = object.get_hori_seam(seam);
    let ghost cells = object.cells();
    let ghost views = tile_views(rel@);
    let n = columns.len();
    let mut i: usize = 0;
    while i < n
        invariant
            i <= n,
            n == columns.len(),
            views == tile_views(rel@),
            cells == object.cells(),
            forall|x: i32|
                #[trigger] columns@.contains(x) <==> crosses_hori_seam(
                    cells,
                    seam as int,
                    x as int,
                ),
            forall|k: int|
                0 <= k < i ==> tile_on(
                    views,
                    Point { x: (#[trigger] columns@[k]) as int, y: seam as int },
                ) && tile_on(views, Point { x: columns@[k] as int, y: seam + 1 }),
        decreases n - i,
    {
        let x = columns[i];
        assert(columns@.contains(x));
        assert(crosses_hori_seam(cells, seam as int, x as int));
        if seam == i32::MAX {
            proof {
                let q = Point { x: x as int, y: seam + 1 };
                let k = choose|k: int| 0 <= k < cells.len() && cells[k] == q;
                assert(cells[k] == object.blocks@[k].pos@);
            }
            return false;
        }
        if !(has_tile_at(rel, x, seam) && has_tile_at(rel, x, seam + 1)) {
            return false;
        }
        i += 1;
    }
    proof {
        assert forall|x: int| #[trigger]
            crosses_hori_seam(cells, seam as int, x) implies tile_on(
            views,
            Point { x, y: seam as int },
        ) && tile_on(views, Point { x, y: seam + 1 }) by {
            let q = Point { x, y: seam as int };
            let k = choose|k: int| 0 <= k < cells.len() && cells[k] == q;
            assert(cells[k] == object.blocks@[k].pos@);
            let column = object.blocks@[k].pos.x;
            assert(column as int == x);
            assert(columns@.contains(column));
            let j = choose|j: int| 0 <= j < columns@.len() && columns@[j] == column;
            assert(tile_on(views, Point { x: columns@[j] as int, y: seam as int }));
        }
    }
    true
}

/// What one tick does with `object`, given the tiles `rel` that act on it.
pub fn resolve(rel: &Vec<Tile>, object: &BlockObject) -> (r: Resolution)
    ensures
        r == resolution(tile_views(rel@), object.cells()),
{
    let ghost views = tile_views(rel@);
    let ghost cells = object.cells();
    if rel.len() > 0 {
        assert(views[0] == rel@[0]@);
        if rel[0].get_type().is_rot_tile() {
            if rel.len() > 1 {
                return Resolution::RotateConflict;
            }
            let cw = match rel[0].get_type() {
                TileType::RotTileCW => true,
                _ => false,
            };
            return Resolution::Whole(MovementType::Rotation { cw, around: rel[0].get_pos() });
        }
    }
    let up = has_push_toward(rel, Direction::Up);
    let down = has_push_toward(rel, Direction::Down);
    let left = has_push_toward(rel, Direction::Left);
    let right = has_push_toward(rel, Direction::Right);
    let mut count: u8 = 0;
    if up {
        count = count + 1;
    }
    if down {
        count = count + 1;
    }
    if left {
        count = count + 1;
    }
    if right {
        count = count + 1;
    }
    assert(count == directions_pushed(views));
    if count == 0 {
        return Resolution::Whole(MovementType::NoMove);
    }
    if count == 1 {
        let d = if up {
            Direction::Up
        } else if down {
            Direction::Down
        } else if left {
            Direction::Left
        } else {
            Direction::Right
        };
        return Resolution::Whole(MovementType::Translation(d));
    }
    // several directions: some tile pushes, so there is a first tile
    assert(rel.len() > 0) by {
        if up {
            assert(pushed_toward(views, Direction::Up));
        }
    }
    assert(views[0] == rel@[0]@);
    let first = rel[0];
    let p = first.get_pos();
    match first.get_dir() {
        Direction::Left => {
            if check_sides_vert(rel, p.x) && check_cover_vert(rel, object, p.x) {
                Resolution::SplitVert { seam: p.x }
            } else {
                Resolution::DirectionConflict
            }
        },
        Direction::Right => {
            if p.x == i32::MIN {
                proof {
                    // the first tile lies in the leftmost column there is: nothing can lie left of its seam
                    let other = choose|i: int|
                        0 <= i < views.len() && (#[trigger] views[i]).tiletype.pushes()
                            && views[i].dir != Direction::Right;
                    assert(!sides_agree_vert(views, proposed_seam(views[0])));
                }
                return Resolution::DirectionConflict;
            }
            let seam = p.x - 1;
            if check_sides_vert(rel, seam) && check_cover_vert(rel, object, seam) {
                Resolution::SplitVert { seam }
            } else {
                Resolution::DirectionConflict
            }
        },
        Direction::Up => {
            if check_sides_hori(rel, p.y) && check_cover_hori(rel, object, p.y) {
                Resolution::SplitHori { seam: p.y }
            } else {
                Resolution::DirectionConflict
            }
        },
        Direction::Down => {
            if p.y == i32::MIN {
                proof {
                    let other = choose|i: int|
                        0 <= i < views.len() && (#[trigger] views[i]).tiletype.pushes()
                            && views[i].dir != Direction::Down;
                    assert(!sides_agree_hori(views, proposed_seam(views[0])));
                }
                return Resolution::DirectionConflict;
            }
            let seam = p.y - 1;
            if check_sides_hori(rel, seam) && check_cover_hori(rel, object, seam) {
                Resolution::SplitHori { seam }
            } else {
                Resolution::DirectionConflict
            }
        },
    }
}

} // verus!
