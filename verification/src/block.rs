//! Block objects: rigid shapes of unit cells that the board moves, turns, splits and merges.

use vstd::prelude::*;
use ggez::GameError;
use crate::cells::{
    above_seam, below_seam, bottom_right_of, cells_fit, cells_overlap, crosses_hori_seam,
    crosses_vert_seam, greatest, hori_seam_columns, least, left_of_seam, lemma_cells_in_box,
    lemma_greatest_step, lemma_least_step, right_of_seam, same_cells, shift_cells, top_left_of,
    turn_cells_ccw, turn_cells_cw, vert_seam_rows, xs, ys,
};
use crate::helpers::{BoardPos, Point};
use crate::seqs::{lemma_filter_start, lemma_filter_step};

verus! {

/// ggez's `GameError`, the error of its `GameResult`. It is declared so that it can stand
/// in signatures; contracts see nothing inside it.
#[verifier::external_type_specification]
#[verifier::external_body]
pub struct ExGameError(ggez::GameError);

/// Makes the variant `RenderError` of ggez's `GameError`, which holds the given text.
/// Nothing is claimed of the value: the error is opaque to the contracts of this crate.
#[verifier::external_body]
fn render_error(message: &str) -> (e: GameError) {
    GameError::RenderError(message.to_string())
}

/// One unit cell of a block object.
#[derive(Copy, Clone, Debug)]
pub struct Block {
    pub pos: BoardPos,
}

impl Block {
    pub fn new(pos: BoardPos) -> (b: Block)
        ensures
            b.pos == pos,
    {
        Block { pos }
    }

    pub fn translate(&mut self, dx: i32, dy: i32)
        requires
            old(self).pos@.shift(dx as int, dy as int).fits(),
        ensures
            final(self).pos@ == old(self).pos@.shift(dx as int, dy as int),
    {
        self.pos.x = self.pos.x + dx;
        self.pos.y = self.pos.y + dy;
    }

    pub fn rotate_ccw(&mut self, around: BoardPos)
        requires
            old(self).pos@.turn_ccw(around@).fits(),
        ensures
            final(self).pos@ == old(self).pos@.turn_ccw(around@),
    {
        let x: i64 = self.pos.y as i64 - around.y as i64 + around.x as i64;
        let y: i64 = around.x as i64 - self.pos.x as i64 + around.y as i64;
        self.pos = BoardPos { x: x as i32, y: y as i32 };
    }

    pub fn rotate_cw(&mut self, around: BoardPos)
        requires
            old(self).pos@.turn_cw(around@).fits(),
        ensures
            final(self).pos@ == old(self).pos@.turn_cw(around@),
    {
        let x: i64 = around.y as i64 - self.pos.y as i64 + around.x as i64;
        let y: i64 = self.pos.x as i64 - around.x as i64 + around.y as i64;
        self.pos = BoardPos { x: x as i32, y: y as i32 };
    }
}

/// How the corner of a cell is drawn, given which of the nine cells around it the object
/// covers. The corner of a covered cell is square where the object goes on beside it or
/// across it, and round otherwise; the corner of a cell that is not covered is filled
/// where the object covers both cells beside it.
pub open spec fn corner_joined(hood: [[bool; 3]; 3], right: bool, low: bool) -> bool {
    let c = if right {
        2int
    } else {
        0int
    };
    let r = if low {
        2int
    } else {
        0int
    };
    if hood[1][1] {
        hood[r][c] || hood[1][c] || hood[r][1]
    } else {
        hood[1][c] && hood[r][1]
    }
}

impl Block {
    /// For each corner of a cell, whether it is drawn joined to the rest of the object:
    /// top left, top right, bottom right, bottom left.
    pub fn joined_corners(hood: [[bool; 3]; 3]) -> (r: [bool; 4])
        ensures
            r[0] == corner_joined(hood, false, false),
            r[1] == corner_joined(hood, true, false),
            r[2] == corner_joined(hood, true, true),
            r[3] == corner_joined(hood, false, true),
    {
        if hood[1][1] {
            [
                hood[0][0] || hood[1][0] || hood[0][1],
                hood[0][2] || hood[0][1] || hood[1][2],
                hood[2][2] || hood[1][2] || hood[2][1],
                hood[2][0] || hood[1][0] || hood[2][1],
            ]
        } else {
            [
                hood[1][0] && hood[0][1],
                hood[0][1] && hood[1][2],
                hood[1][2] && hood[2][1],
                hood[1][0] && hood[2][1],
            ]
        }
    }

    /// For each side of a cell of an output, whether the outline runs along it: up,
    /// right, down, left. The outline runs where the output covers the cell and not the
    /// cell beyond the side.
    pub fn outlined_sides(hood: [[bool; 3]; 3]) -> (r: [bool; 4])
        ensures
            r[0] == (hood[1][1] && !hood[0][1]),
            r[1] == (hood[1][1] && !hood[1][2]),
            r[2] == (hood[1][1] && !hood[2][1]),
            r[3] == (hood[1][1] && !hood[1][0]),
    {
        let here = hood[1][1];
        [here && !hood[0][1], here && !hood[1][2], here && !hood[2][1], here && !hood[1][0]]
    }

    /// For each corner of a cell of an output, whether the outline marks it: top left,
    /// top right, bottom left, bottom right. The outline marks a corner where the output
    /// covers the cell and not the cell across the corner.
    pub fn outlined_corners(hood: [[bool; 3]; 3]) -> (r: [bool; 4])
        ensures
            r[0] == (hood[1][1] && !hood[0][0]),
            r[1] == (hood[1][1] && !hood[0][2]),
            r[2] == (hood[1][1] && !hood[2][0]),
            r[3] == (hood[1][1] && !hood[2][2]),
    {
        let here = hood[1][1];
        [here && !hood[0][0], here && !hood[0][2], here && !hood[2][0], here && !hood[2][2]]
    }
}

/// The points that a list of blocks covers, in the order of the list.
pub open spec fn block_cells(blocks: Seq<Block>) -> Seq<Point> {
    blocks.map_values(|b: Block| b.pos@)
}

#[derive(Copy, Clone, PartialEq, Eq, Structural, Debug)]
pub enum BlockObjectMode {
    Input,
    Output,
    Processing,
}

/// What the last tick did to a block object, for whoever draws the tick in between.
/// A translation gives its step in cells; a rotation gives its pivot and its angle in
/// quarter turns, counterclockwise positive.
#[derive(Copy, Clone, PartialEq, Eq, Structural, Debug)]
pub enum BlockObjectAnimation {
    Translation { x: i32, y: i32 },
    Rotation { quarter_turns: i32, around: BoardPos },
    Output,
}

/// What a block object is, as contracts see it: its cells as grid points, and every field
/// but the remembered bounding box.
pub struct BlockObjectView {
    pub cells: Seq<Point>,
    pub mode: BlockObjectMode,
    pub id: int,
    pub anim: BlockObjectAnimation,
    pub start_counter: int,
    pub counter: int,
    pub just_moved: bool,
}

/// A rigid shape of unit cells. `id` is -1 for a shape that is not on the board or may be
/// placed any number of times; an object in flight has an identity of its own for the
/// run. `counter` is what is left of `start_counter`: spawns for an input, expected
/// arrivals for an output.
pub struct BlockObject {
    pub blocks: Vec<Block>,
    pub mode: BlockObjectMode,
    pub id: i32,
    pub anim: BlockObjectAnimation,
    pub start_counter: i32,
    pub counter: i32,
    pub just_moved: bool,
    pub cache: BoundsCache,
}

/// The bounding box that a block object remembers between questions about it.
pub struct BoundsCache {
    top_left: Option<BoardPos>,
    bottom_right: Option<BoardPos>,
}

impl BoundsCache {
    /// Whatever corner is remembered is the true corner of the bounding box of `cells`.
    pub closed spec fn agrees_with(&self, cells: Seq<Point>) -> bool {
        &&& self.top_left matches Some(p) ==> cells.len() > 0 && p@ == top_left_of(cells)
        &&& self.bottom_right matches Some(p) ==> cells.len() > 0 && p@ == bottom_right_of(cells)
    }

    /// Both corners are remembered.
    pub closed spec fn filled(&self) -> bool {
        self.top_left is Some && self.bottom_right is Some
    }
}

impl View for BlockObject {
    type V = BlockObjectView;

    open spec fn view(&self) -> BlockObjectView {
        BlockObjectView {
            cells: block_cells(self.blocks@),
            mode: self.mode,
            id: self.id as int,
            anim: self.anim,
            start_counter: self.start_counter as int,
            counter: self.counter as int,
            just_moved: self.just_moved,
        }
    }
}

/// The view of a block object that was just made from a list of cells.
pub open spec fn fresh_view(cells: Seq<Point>, mode: BlockObjectMode) -> BlockObjectView {
    BlockObjectView {
        cells,
        mode,
        id: -1,
        anim: BlockObjectAnimation::Translation { x: 0, y: 0 },
        start_counter: 0,
        counter: 0,
        just_moved: true,
    }
}

/// The views of a list of block objects, in the order of the list.
pub open spec fn views_of(objects: Seq<BlockObject>) -> Seq<BlockObjectView> {
    objects.map_values(|b: BlockObject| b@)
}

/// Every object of the list remembers no wrong bounding box.
pub open spec fn all_wf(objects: Seq<BlockObject>) -> bool {
    forall|i: int| 0 <= i < objects.len() ==> (#[trigger] objects[i]).wf()
}

/// Every object of the list has at least one cell.
pub open spec fn all_solid(objects: Seq<BlockObjectView>) -> bool {
    forall|i: int| 0 <= i < objects.len() ==> (#[trigger] objects[i]).cells.len() > 0
}

impl BlockObject {
    /// The cells of the object as grid points, in the order of `blocks`.
    pub open spec fn cells(&self) -> Seq<Point> {
        block_cells(self.blocks@)
    }

    /// A remembered corner of the bounding box is the true corner of the present cells.
    pub open spec fn wf(&self) -> bool {
        self.cache.agrees_with(self.cells())
    }

    pub fn new() -> (b: BlockObject)
        ensures
            b@ == fresh_view(Seq::<Point>::empty(), BlockObjectMode::Processing),
            b.wf(),
    {
        let b = BlockObject {
            blocks: Vec::new(),
            cache: BoundsCache { top_left: None, bottom_right: None },
            mode: BlockObjectMode::Processing,
            id: -1,
            anim: BlockObjectAnimation::Translation { x: 0, y: 0 },
            start_counter: 0,
            counter: 0,
            just_moved: true,
        };
        assert(b.cells() =~= Seq::<Point>::empty());
        b
    }

    pub fn from_blocklist(blocks: Vec<Block>, mode: BlockObjectMode) -> (b: BlockObject)
        ensures
            b.blocks == blocks,
            b@ == fresh_view(block_cells(blocks@), mode),
            b.wf(),
    {
        BlockObject {
            blocks,
            cache: BoundsCache { top_left: None, bottom_right: None },
            mode,
            id: -1,
            anim: BlockObjectAnimation::Translation { x: 0, y: 0 },
            counter: 0,
            start_counter: 0,
            just_moved: true,
        }
    }

    /// Takes the blocks of `other` and puts them behind those of `self`. Cells that both
    /// hold are then listed twice.
    pub fn merge(&mut self, other: &mut BlockObject)
        ensures
            final(self)@ == (BlockObjectView {
                cells: old(self).cells() + old(other).cells(),
                ..old(self)@
            }),
            final(other)@ == (BlockObjectView { cells: Seq::<Point>::empty(), ..old(other)@ }),
            final(self).wf(),
            final(other).wf(),
    {
        self.blocks.append(&mut other.blocks);
        self.reset_cache();
        other.reset_cache();
        assert(self.cells() =~= old(self).cells() + old(other).cells());
        assert(other.cells() =~= Seq::<Point>::empty());
    }

    pub fn translate(&mut self, dx: i32, dy: i32)
        requires
            cells_fit(shift_cells(old(self).cells(), dx as int, dy as int)),
        ensures
            final(self)@ == (BlockObjectView {
                cells: shift_cells(old(self).cells(), dx as int, dy as int),
                ..old(self)@
            }),
            final(self).wf(),
    {
        let n = self.blocks.len();
        let ghost before = self.cells();
        let mut i: usize = 0;
        while i < n
            invariant
                i <= n,
                n == self.blocks.len(),
                before == old(self).cells(),
                before.len() == n,
                cells_fit(shift_cells(before, dx as int, dy as int)),
                self@ == (BlockObjectView { cells: self.cells(), ..old(self)@ }),
                self.cells().len() == n,
                forall|k: int|
                    0 <= k < i ==> self.cells()[k] == (#[trigger] before[k]).shift(
                        dx as int,
                        dy as int,
                    ),
                forall|k: int| i <= k < n ==> self.cells()[k] == #[trigger] before[k],
            decreases n - i,
        {
            assert(self.cells()[i as int] == before[i as int]);
            assert(shift_cells(before, dx as int, dy as int)[i as int].fits());
            let mut b = self.blocks[i];
            b.translate(dx, dy);
            self.blocks.set(i, b);
            i += 1;
        }
        assert(self.cells() =~= shift_cells(before, dx as int, dy as int));
        let _ = self.generate_bounds();
    }

    /// The corner of the bounding box with the smallest coordinates. There is none for an
    /// object without blocks: that is an error.
    pub fn get_top_left(&mut self) -> (r: Result<BoardPos, GameError>)
        requires
            old(self).wf(),
        ensures
            r is Err <==> old(self).cells().len() == 0,
            r matches Ok(p) ==> p@ == top_left_of(old(self).cells()),
            final(self)@ == old(self)@,
            final(self).wf(),
    {
        match self.corners() {
            Some(c) => Ok(c.0),
            None => Err(render_error("Cannot render blockobject with no blocks")),
        }
    }

    /// The corner of the bounding box with the largest coordinates. There is none for an
    /// object without blocks: that is an error.
    pub fn get_bottom_right(&mut self) -> (r: Result<BoardPos, GameError>)
        requires
            old(self).wf(),
        ensures
            r is Err <==> old(self).cells().len() == 0,
            r matches Ok(p) ==> p@ == bottom_right_of(old(self).cells()),
            final(self)@ == old(self)@,
            final(self).wf(),
    {
        match self.corners() {
            Some(c) => Ok(c.1),
            None => Err(render_error("Cannot render blockobject with no blocks")),
        }
    }

    /// Both corners of the bounding box are remembered.
    pub open spec fn bounds_known(&self) -> bool {
        self.cache.filled()
    }

    /// Works out the bounding box from the cells and remembers it. An object without
    /// blocks has none: that is an error.
    pub fn generate_bounds(&mut self) -> (r: Result<(), GameError>)
        ensures
            r is Err <==> old(self).cells().len() == 0,
            r is Ok ==> final(self).bounds_known(),
            final(self)@ == old(self)@,
            final(self).wf(),
    {
        let n = self.blocks.len();
        if n == 0 {
            self.reset_cache();
            return Err(render_error("Cannot render blockobject with no blocks"));
        }
        let ghost cells = self.cells();
        let first = self.blocks[0].pos;
        let mut xmin: i32 = first.x;
        let mut ymin: i32 = first.y;
        let mut xmax: i32 = first.x;
        let mut ymax: i32 = first.y;
        let mut i: usize = 1;
        proof {
            assert(xs(cells).take(1) =~= seq![first.x as int]);
            assert(ys(cells).take(1) =~= seq![first.y as int]);
        }
        while i < n
            invariant
                1 <= i <= n,
                n == self.blocks.len(),
                cells == self.cells(),
                xmin == least(xs(cells).take(i as int)),
                ymin == least(ys(cells).take(i as int)),
                xmax == greatest(xs(cells).take(i as int)),
                ymax == greatest(ys(cells).take(i as int)),
            decreases n - i,
        {
            let p = self.blocks[i].pos;
            proof {
                assert(xs(cells)[i as int] == p.x);
                assert(ys(cells)[i as int] == p.y);
                lemma_least_step(xs(cells), i as int);
                lemma_least_step(ys(cells), i as int);
                lemma_greatest_step(xs(cells), i as int);
                lemma_greatest_step(ys(cells), i as int);
            }
            if p.x < xmin {
                xmin = p.x;
            }
            if p.y < ymin {
                ymin = p.y;
            }
            if p.x > xmax {
                xmax = p.x;
            }
            if p.y > ymax {
                ymax = p.y;
            }
            i += 1;
        }
        proof {
            assert(xs(cells).take(n as int) =~= xs(cells));
            assert(ys(cells).take(n as int) =~= ys(cells));
        }
        self.cache.top_left = Some(BoardPos { x: xmin, y: ymin });
        self.cache.bottom_right = Some(BoardPos { x: xmax, y: ymax });
        Ok(())
    }

    /// Both corners of the bounding box, worked out if they are not remembered; `None`
    /// for an object without blocks.
    fn corners(&mut self) -> (r: Option<(BoardPos, BoardPos)>)
        requires
            old(self).wf(),
        ensures
            r is None <==> old(self).cells().len() == 0,
            r matches Some(c) ==> c.0@ == top_left_of(old(self).cells()) && c.1@
                == bottom_right_of(old(self).cells()),
            final(self)@ == old(self)@,
            final(self).wf(),
    {
        if self.cache.top_left.is_none() || self.cache.bottom_right.is_none() {
            let _ = self.generate_bounds();
        }
        match (self.cache.top_left, self.cache.bottom_right) {
            (Some(tl), Some(br)) => Some((tl, br)),
            _ => None,
        }
    }

    /// Forgets the bounding box; the next question about it works it out again.
    fn reset_cache(&mut self)
        ensures
            final(self)@ == old(self)@,
            final(self).blocks == old(self).blocks,
            final(self).wf(),
    {
        self.cache.top_left = None;
        self.cache.bottom_right = None;
    }

    /// One of the blocks lies on `pos`.
    fn holds(&self, pos: BoardPos) -> (r: bool)
        ensures
            r == self.cells().contains(pos@),
    {
        let n = self.blocks.len();
        let mut i: usize = 0;
        while i < n
            invariant
                i <= n,
                n == self.blocks.len(),
                forall|k: int| 0 <= k < i ==> self.cells()[k] != pos@,
            decreases n - i,
        {
            if self.blocks[i].pos == pos {
                assert(self.cells()[i as int] == pos@);
                return true;
            }
            i += 1;
        }
        false
    }

    /// Every cell of `other` is a cell of `self`.
    fn covers(&self, other: &BlockObject) -> (r: bool)
        ensures
            r == other.cells().to_set().subset_of(self.cells().to_set()),
    {
        let n = other.blocks.len();
        let mut i: usize = 0;
        while i < n
            invariant
                i <= n,
                n == other.blocks.len(),
                forall|k: int| 0 <= k < i ==> self.cells().contains(other.cells()[k]),
            decreases n - i,
        {
            if !self.holds(other.blocks[i].pos) {
                assert(other.cells()[i as int] == other.blocks[i as int].pos@);
                assert(other.cells().to_set().contains(other.cells()[i as int]));
                return false;
            }
            i += 1;
        }
        true
    }

    /// The two objects have a cell in common.
    pub fn has_overlap(&mut self, other: &mut Self) -> (r: bool)
        requires
            old(self).wf(),
            old(other).wf(),
        ensures
            r == cells_overlap(old(self).cells(), old(other).cells()),
            final(self)@ == old(self)@,
            final(other)@ == old(other)@,
            final(self).wf(),
            final(other).wf(),
    {
        let sc = self.corners();
        let oc = other.corners();
        proof {
            lemma_cells_in_box(self.cells());
            lemma_cells_in_box(other.cells());
        }
        let (stl, sbr, otl, obr) = match (sc, oc) {
            (Some(s), Some(o)) => (s.0, s.1, o.0, o.1),
            _ => {
                return false;
            },
        };
        let xoverlap = sbr.x >= otl.x && obr.x >= stl.x;
        let yoverlap = sbr.y >= otl.y && obr.y >= stl.y;
        if xoverlap && yoverlap {
            let n = self.blocks.len();
            let mut i: usize = 0;
            while i < n
                invariant
                    i <= n,
                    n == self.blocks.len(),
                    self@ == old(self)@,
                    other@ == old(other)@,
                    self.wf(),
                    other.wf(),
                    forall|k: int| 0 <= k < i ==> !other.cells().contains(self.cells()[k]),
                decreases n - i,
            {
                if other.holds(self.blocks[i].pos) {
                    assert(self.cells()[i as int] == self.blocks[i as int].pos@);
                    assert(self.cells().contains(self.cells()[i as int]));
                    return true;
                }
                i += 1;
            }
        }
        false
    }

    /// One of the blocks lies on `pos`.
    pub fn overlap_tile(&mut self, pos: BoardPos) -> (r: bool)
        requires
            old(self).wf(),
        ensures
            r == old(self).cells().contains(pos@),
            final(self)@ == old(self)@,
            final(self).wf(),
    {
        proof {
            lemma_cells_in_box(self.cells());
        }
        let (tl, br) = match self.corners() {
            Some(c) => c,
            None => {
                return false;
            },
        };
        let xoverlap = br.x >= pos.x && pos.x >= tl.x;
        let yoverlap = br.y >= pos.y && pos.y >= tl.y;
        if xoverlap && yoverlap {
            self.holds(pos)
        } else {
            false
        }
    }

    /// The two objects cover exactly the same cells.
    pub fn exact_overlap(&mut self, other: &mut Self) -> (r: bool)
        requires
            old(self).wf(),
            old(other).wf(),
        ensures
            r == same_cells(old(self).cells(), old(other).cells()),
            final(self)@ == old(self)@,
            final(other)@ == old(other)@,
            final(self).wf(),
            final(other).wf(),
    {
        let sc = self.corners();
        let oc = other.corners();
        proof {
            lemma_cells_in_box(self.cells());
            lemma_cells_in_box(other.cells());
            if self.cells().len() > 0 {
                assert(self.cells().to_set().contains(self.cells()[0]));
            }
            if other.cells().len() > 0 {
                assert(other.cells().to_set().contains(other.cells()[0]));
            }
        }
        let (stl, sbr, otl, obr) = match (sc, oc) {
            (Some(s), Some(o)) => (s.0, s.1, o.0, o.1),
            (None, None) => {
                assert(self.cells().to_set() =~= other.cells().to_set());
                return true;
            },
            _ => {
                return false;
            },
        };
        let xoverlap = sbr.x >= otl.x && obr.x >= stl.x;
        let yoverlap = sbr.y >= otl.y && obr.y >= stl.y;
        if xoverlap && yoverlap {
            self.covers(other) && other.covers(self)
        } else {
            proof {
                let p = self.cells()[0];
                let q = other.cells()[0];
                assert(self.cells().to_set().contains(p));
                assert(other.cells().to_set().contains(q));
                if same_cells(self.cells(), other.cells()) {
                    assert(other.cells().contains(p));
                    assert(self.cells().contains(q));
                }
            }
            false
        }
    }

    pub fn rotate_cw(&mut self, around: BoardPos)
        requires
            cells_fit(turn_cells_cw(old(self).cells(), around@)),
        ensures
            final(self)@ == (BlockObjectView {
                cells: turn_cells_cw(old(self).cells(), around@),
                ..old(self)@
            }),
            final(self).wf(),
    {
        let n = self.blocks.len();
        let ghost before = self.cells();
        let mut i: usize = 0;
        while i < n
            invariant
                i <= n,
                n == self.blocks.len(),
                before == old(self).cells(),
                before.len() == n,
                cells_fit(turn_cells_cw(before, around@)),
                self@ == (BlockObjectView { cells: self.cells(), ..old(self)@ }),
                self.cells().len() == n,
                forall|k: int|
                    0 <= k < i ==> self.cells()[k] == (#[trigger] before[k]).turn_cw(around@),
                forall|k: int| i <= k < n ==> self.cells()[k] == #[trigger] before[k],
            decreases n - i,
        {
            assert(self.cells()[i as int] == before[i as int]);
            assert(turn_cells_cw(before, around@)[i as int].fits());
            let mut b = self.blocks[i];
            b.rotate_cw(around);
            self.blocks.set(i, b);
            i += 1;
        }
        assert(self.cells() =~= turn_cells_cw(before, around@));
        self.reset_cache();
    }

    pub fn rotate_ccw(&mut self, around: BoardPos)
        requires
            cells_fit(turn_cells_ccw(old(self).cells(), around@)),
        ensures
            final(self)@ == (BlockObjectView {
                cells: turn_cells_ccw(old(self).cells(), around@),
                ..old(self)@
            }),
            final(self).wf(),
    {
        let n = self.blocks.len();
        let ghost before = self.cells();
        let mut i: usize = 0;
        while i < n
            invariant
                i <= n,
                n == self.blocks.len(),
                before == old(self).cells(),
                before.len() == n,
                cells_fit(turn_cells_ccw(before, around@)),
                self@ == (BlockObjectView { cells: self.cells(), ..old(self)@ }),
                self.cells().len() == n,
                forall|k: int|
                    0 <= k < i ==> self.cells()[k] == (#[trigger] before[k]).turn_ccw(around@),
                forall|k: int| i <= k < n ==> self.cells()[k] == #[trigger] before[k],
            decreases n - i,
        {
            assert(self.cells()[i as int] == before[i as int]);
            assert(turn_cells_ccw(before, around@)[i as int].fits());
            let mut b = self.blocks[i];
            b.rotate_ccw(around);
            self.blocks.set(i, b);
            i += 1;
        }
        assert(self.cells() =~= turn_cells_ccw(before, around@));
        self.reset_cache();
    }

    /// The rows in which the object is solid on both sides of the vertical seam between
    /// columns `x` and `x + 1`, each row once, in the order in which the blocks come
    /// upon them.
    pub fn get_vert_seam(&self, x: i32) -> (r: Vec<i32>)
        ensures
            r@.no_duplicates(),
            forall|y: i32|
                #[trigger] r@.contains(y) <==> crosses_vert_seam(self.cells(), x as int, y as int),
            numbers_of(r@) == vert_seam_rows(self.cells(), x as int, self.cells().len() as int),
    {
        let mut ans: Vec<i32> = Vec::new();
        let ghost cells = self.cells();
        let n = self.blocks.len();
        let mut i: usize = 0;
        assert(numbers_of(ans@) =~= vert_seam_rows(cells, x as int, 0));
        while i < n
            invariant
                i <= n,
                n == self.blocks.len(),
                cells == self.cells(),
                numbers_of(ans@) == vert_seam_rows(cells, x as int, i as int),
                ans@.no_duplicates(),
                forall|y: i32|
                    #[trigger] ans@.contains(y) <==> (crosses_vert_seam(cells, x as int, y as int)
                        && cells.take(i as int).contains(Point { x: x as int, y: y as int })),
            decreases n - i,
        {
            let p = self.blocks[i].pos;
            let ghost before = ans@;
            let ghost next = cells.take(i + 1);
            proof {
                assert(next =~= cells.take(i as int).push(p@));
                assert(cells[i as int] == p@);
                assert(cells.contains(p@));
            }
            proof {
                lemma_numbers_hold(before, p.y);
            }
            if p.x == x && self.covers_near(p, 1, 0) && !holds_number(&ans, p.y) {
                ans.push(p.y);
                assert(ans@.last() == p.y);
                assert(numbers_of(ans@) =~= numbers_of(before).push(p.y as int));
            }
            proof {
                assert forall|y: i32|
                    #[trigger] ans@.contains(y) <==> (crosses_vert_seam(cells, x as int, y as int)
                        && next.contains(Point { x: x as int, y: y as int })) by {
                    let q = Point { x: x as int, y: y as int };
                    if ans@.contains(y) {
                        let k = choose|k: int| 0 <= k < ans@.len() && ans@[k] == y;
                        if k < before.len() {
                            assert(before[k] == y);
                            assert(before.contains(y));
                            let j = choose|j: int|
                                0 <= j < cells.take(i as int).len() && cells.take(i as int)[j]
                                    == q;
                            assert(next[j] == q);
                        } else {
                            assert(next[i as int] == q);
                        }
                    }
                    if crosses_vert_seam(cells, x as int, y as int) && next.contains(q) {
                        let j = choose|j: int| 0 <= j < next.len() && next[j] == q;
                        if j < i {
                            assert(cells.take(i as int)[j] == q);
                            assert(before.contains(y));
                            let k = choose|k: int| 0 <= k < before.len() && before[k] == y;
                            assert(ans@[k] == y);
                        } else {
                            assert(p@ == q);
                            if before.contains(y) {
                                let k = choose|k: int| 0 <= k < before.len() && before[k] == y;
                                assert(ans@[k] == y);
                            } else {
                                assert(ans@[ans@.len() - 1] == y);
                            }
                        }
                    }
                }
            }
            i += 1;
        }
        assert(cells.take(n as int) =~= cells);
        ans
    }

    /// The columns in which the object is solid on both sides of the horizontal seam
    /// between rows `y` and `y + 1`, each column once, in the order in which the blocks
    /// come upon them.
    pub fn get_hori_seam(&self, y: i32) -> (r: Vec<i32>)
        ensures
            r@.no_duplicates(),
            forall|x: i32|
                #[trigger] r@.contains(x) <==> crosses_hori_seam(self.cells(), y as int, x as int),
            numbers_of(r@) == hori_seam_columns(self.cells(), y as int, self.cells().len() as int),
    {
        let mut ans: Vec<i32> = Vec::new();
        let ghost cells = self.cells();
        let n = self.blocks.len();
        let mut i: usize = 0;
        assert(numbers_of(ans@) =~= hori_seam_columns(cells, y as int, 0));
        while i < n
            invariant
                i <= n,
                n == self.blocks.len(),
                cells == self.cells(),
                numbers_of(ans@) == hori_seam_columns(cells, y as int, i as int),
                ans@.no_duplicates(),
                forall|x: i32|
                    #[trigger] ans@.contains(x) <==> (crosses_hori_seam(cells, y as int, x as int)
                        && cells.take(i as int).contains(Point { x: x as int, y: y as int })),
            decreases n - i,
        {
            let p = self.blocks[i].pos;
            let ghost before = ans@;
            let ghost next = cells.take(i + 1);
            proof {
                assert(next =~= cells.take(i as int).push(p@));
                assert(cells[i as int] == p@);
                assert(cells.contains(p@));
            }
            proof {
                lemma_numbers_hold(before, p.x);
            }
            if p.y == y && self.covers_near(p, 0, 1) && !holds_number(&ans, p.x) {
                ans.push(p.x);
                assert(ans@.last() == p.x);
                assert(numbers_of(ans@) =~= numbers_of(before).push(p.x as int));
            }
            proof {
                assert forall|x: i32|
                    #[trigger] ans@.contains(x) <==> (crosses_hori_seam(cells, y as int, x as int)
                        && next.contains(Point { x: x as int, y: y as int })) by {
                    let q = Point { x: x as int, y: y as int };
                    if ans@.contains(x) {
                        let k = choose|k: int| 0 <= k < ans@.len() && ans@[k] == x;
                        if k < before.len() {
                            assert(before[k] == x);
                            assert(before.contains(x));
                            let j = choose|j: int|
                                0 <= j < cells.take(i as int).len() && cells.take(i as int)[j]
                                    == q;
                            assert(next[j] == q);
                        } else {
                            assert(next[i as int] == q);
                        }
                    }
                    if crosses_hori_seam(cells, y as int, x as int) && next.contains(q) {
                        let j = choose|j: int| 0 <= j < next.len() && next[j] == q;
                        if j < i {
                            assert(cells.take(i as int)[j] == q);
                            assert(before.contains(x));
                            let k = choose|k: int| 0 <= k < before.len() && before[k] == x;
                            assert(ans@[k] == x);
                        } else {
                            assert(p@ == q);
                            if before.contains(x) {
                                let k = choose|k: int| 0 <= k < before.len() && before[k] == x;
                                assert(ans@[k] == x);
                            } else {
                                assert(ans@[ans@.len() - 1] == x);
                            }
                        }
                    }
                }
            }
            i += 1;
        }
        assert(cells.take(n as int) =~= cells);
        ans
    }

    /// Parts the object along the vertical seam between columns `x` and `x + 1`: the
    /// cells with a column of at most `x` stay, the others leave as a new object.
    pub fn split_vert_seam(&mut self, x: i32) -> (other: Self)
        ensures
            final(self)@ == (BlockObjectView {
                cells: left_of_seam(old(self).cells(), x as int),
                ..old(self)@
            }),
            other@ == fresh_view(
                right_of_seam(old(self).cells(), x as int),
                BlockObjectMode::Processing,
            ),
            final(self).wf(),
            other.wf(),
    {
        let ghost cells = self.cells();
        let mut kept: Vec<Block> = Vec::new();
        let mut moved: Vec<Block> = Vec::new();
        let n = self.blocks.len();
        let mut i: usize = 0;
        proof {
            lemma_filter_start(cells, |p: Point| p.x <= x as int);
            lemma_filter_start(cells, |p: Point| p.x > x as int);
        }
        while i < n
            invariant
                i <= n,
                n == self.blocks.len(),
                cells == self.cells(),
                self@ == old(self)@,
                block_cells(kept@) =~= left_of_seam(cells.take(i as int), x as int),
                block_cells(moved@) =~= right_of_seam(cells.take(i as int), x as int),
            decreases n - i,
        {
            let b = self.blocks[i];
            proof {
                assert(cells[i as int] == b.pos@);
                lemma_filter_step(cells, |p: Point| p.x <= x as int, i as int);
                lemma_filter_step(cells, |p: Point| p.x > x as int, i as int);
            }
            if b.pos.x > x {
                moved.push(b);
            } else {
                kept.push(b);
            }
            i += 1;
        }
        assert(cells.take(n as int) =~= cells);
        self.blocks = kept;
        self.reset_cache();
        Self::from_blocklist(moved, BlockObjectMode::Processing)
    }

    /// Parts the object along the horizontal seam between rows `y` and `y + 1`: the cells
    /// with a row of at most `y` stay, the others leave as a new object.
    pub fn split_hori_seam(&mut self, y: i32) -> (other: Self)
        ensures
            final(self)@ == (BlockObjectView {
                cells: above_seam(old(self).cells(), y as int),
                ..old(self)@
            }),
            other@ == fresh_view(
                below_seam(old(self).cells(), y as int),
                BlockObjectMode::Processing,
            ),
            final(self).wf(),
            other.wf(),
    {
        let ghost cells = self.cells();
        let mut kept: Vec<Block> = Vec::new();
        let mut moved: Vec<Block> = Vec::new();
        let n = self.blocks.len();
        let mut i: usize = 0;
        proof {
            lemma_filter_start(cells, |p: Point| p.y <= y as int);
            lemma_filter_start(cells, |p: Point| p.y > y as int);
        }
        while i < n
            invariant
                i <= n,
                n == self.blocks.len(),
                cells == self.cells(),
                self@ == old(self)@,
                block_cells(kept@) =~= above_seam(cells.take(i as int), y as int),
                block_cells(moved@) =~= below_seam(cells.take(i as int), y as int),
            decreases n - i,
        {
            let b = self.blocks[i];
            proof {
                assert(cells[i as int] == b.pos@);
                lemma_filter_step(cells, |p: Point| p.y <= y as int, i as int);
                lemma_filter_step(cells, |p: Point| p.y > y as int, i as int);
            }
            if b.pos.y > y {
                moved.push(b);
            } else {
                kept.push(b);
            }
            i += 1;
        }
        assert(cells.take(n as int) =~= cells);
        self.blocks = kept;
        self.reset_cache();
        Self::from_blocklist(moved, BlockObjectMode::Processing)
    }

    /// Whether a quarter turn about `around`, clockwise or not, would leave every block
    /// on a position that can be held.
    pub fn can_rotate(&self, around: BoardPos, cw: bool) -> (r: bool)
        ensures
            cw ==> r == cells_fit(turn_cells_cw(self.cells(), around@)),
            !cw ==> r == cells_fit(turn_cells_ccw(self.cells(), around@)),
    {
        let low: i64 = i32::MIN as i64;
        let high: i64 = i32::MAX as i64;
        let n = self.blocks.len();
        let mut i: usize = 0;
        while i < n
            invariant
                i <= n,
                n == self.blocks.len(),
                low == i32::MIN,
                high == i32::MAX,
                cw ==> forall|k: int|
                    0 <= k < i ==> (#[trigger] turn_cells_cw(self.cells(), around@)[k]).fits(),
                !cw ==> forall|k: int|
                    0 <= k < i ==> (#[trigger] turn_cells_ccw(self.cells(), around@)[k]).fits(),
            decreases n - i,
        {
            let p = self.blocks[i].pos;
            let (x, y): (i64, i64) = if cw {
                (
                    around.y as i64 - p.y as i64 + around.x as i64,
                    p.x as i64 - around.x as i64 + around.y as i64,
                )
            } else {
                (
                    p.y as i64 - around.y as i64 + around.x as i64,
                    around.x as i64 - p.x as i64 + around.y as i64,
                )
            };
            proof {
                assert(self.cells()[i as int] == p@);
                if cw {
                    assert(turn_cells_cw(self.cells(), around@)[i as int] == p@.turn_cw(around@));
                } else {
                    assert(turn_cells_ccw(self.cells(), around@)[i as int] == p@.turn_ccw(
                        around@,
                    ));
                }
            }
            if x < low || x > high || y < low || y > high {
                return false;
            }
            i += 1;
        }
        true
    }

    /// Whether moving the object by `(dx, dy)` would leave every block on a position that
    /// can be held.
    pub fn can_translate(&self, dx: i32, dy: i32) -> (r: bool)
        ensures
            r == cells_fit(shift_cells(self.cells(), dx as int, dy as int)),
    {
        let low: i64 = i32::MIN as i64;
        let high: i64 = i32::MAX as i64;
        let n = self.blocks.len();
        let mut i: usize = 0;
        while i < n
            invariant
                i <= n,
                n == self.blocks.len(),
                low == i32::MIN,
                high == i32::MAX,
                forall|k: int|
                    0 <= k < i ==> (#[trigger] shift_cells(
                        self.cells(),
                        dx as int,
                        dy as int,
                    )[k]).fits(),
            decreases n - i,
        {
            let p = self.blocks[i].pos;
            let x: i64 = p.x as i64 + dx as i64;
            let y: i64 = p.y as i64 + dy as i64;
            proof {
                assert(self.cells()[i as int] == p@);
                assert(shift_cells(self.cells(), dx as int, dy as int)[i as int] == p@.shift(
                    dx as int,
                    dy as int,
                ));
            }
            if x < low || x > high || y < low || y > high {
                return false;
            }
            i += 1;
        }
        true
    }

    /// Which of the nine cells around `at` the object covers, row by row: entry `[r][c]`
    /// stands for the cell `c - 1` columns and `r - 1` rows from `at`, so that `[1][1]`
    /// stands for `at` itself.
    pub fn neighbourhood(&self, at: BoardPos) -> (hood: [[bool; 3]; 3])
        ensures
            forall|r: int, c: int|
                0 <= r < 3 && 0 <= c < 3 ==> #[trigger] hood[r][c] == self.cells().contains(
                    at@.shift(c - 1, r - 1),
                ),
    {
        let top = [self.covers_near(at, -1, -1), self.covers_near(at, 0, -1), self.covers_near(at, 1, -1)];
        let middle = [self.covers_near(at, -1, 0), self.covers_near(at, 0, 0), self.covers_near(at, 1, 0)];
        let bottom = [self.covers_near(at, -1, 1), self.covers_near(at, 0, 1), self.covers_near(at, 1, 1)];
        [top, middle, bottom]
    }

    /// One of the blocks lies `dx` columns and `dy` rows from `at`.
    fn covers_near(&self, at: BoardPos, dx: i32, dy: i32) -> (r: bool)
        requires
            -1 <= dx <= 1,
            -1 <= dy <= 1,
        ensures
            r == self.cells().contains(at@.shift(dx as int, dy as int)),
    {
        let x: i64 = at.x as i64 + dx as i64;
        let y: i64 = at.y as i64 + dy as i64;
        if x < i32::MIN as i64 || x > i32::MAX as i64 || y < i32::MIN as i64 || y > i32::MAX as i64 {
            proof {
                let q = at@.shift(dx as int, dy as int);
                if self.cells().contains(q) {
                    let k = choose|k: int| 0 <= k < self.cells().len() && self.cells()[k] == q;
                    assert(self.cells()[k] == self.blocks@[k].pos@);
                }
            }
            return false;
        }
        self.holds(BoardPos { x: x as i32, y: y as i32 })
    }

    /// The positions of the blocks, in the order of `blocks`.
    pub fn block_locations(&self) -> (r: Vec<BoardPos>)
        ensures
            r@ == self.blocks@.map_values(|b: Block| b.pos),
    {
        let mut ans: Vec<BoardPos> = Vec::new();
        let n = self.blocks.len();
        let mut i: usize = 0;
        while i < n
            invariant
                i <= n,
                n == self.blocks.len(),
                ans@ =~= self.blocks@.take(i as int).map_values(|b: Block| b.pos),
            decreases n - i,
        {
            ans.push(self.blocks[i].pos);
            i += 1;
        }
        assert(self.blocks@.take(n as int) =~= self.blocks@);
        ans
    }
}

impl Clone for BlockObject {
    /// A copy with the same cells and fields; the copy remembers no bounding box.
    fn clone(&self) -> (c: BlockObject)
        ensures
            c@ == self@,
            c.wf(),
    {
        let mut blocks: Vec<Block> = Vec::new();
        let n = self.blocks.len();
        let mut i: usize = 0;
        while i < n
            invariant
                i <= n,
                n == self.blocks.len(),
                blocks@ =~= self.blocks@.take(i as int),
            decreases n - i,
        {
            blocks.push(self.blocks[i]);
            i += 1;
        }
        assert(self.blocks@.take(n as int) =~= self.blocks@);
        BlockObject {
            blocks,
            cache: BoundsCache { top_left: None, bottom_right: None },
            mode: self.mode,
            id: self.id,
            anim: self.anim,
            counter: self.counter,
            start_counter: self.start_counter,
            just_moved: self.just_moved,
        }
    }
}

/// The numbers of a list as integers.
pub open spec fn numbers_of(v: Seq<i32>) -> Seq<int> {
    v.map_values(|y: i32| y as int)
}

/// A list holds a number exactly when its integers hold that integer.
proof fn lemma_numbers_hold(v: Seq<i32>, y: i32)
    ensures
        v.contains(y) <==> numbers_of(v).contains(y as int),
{
    if v.contains(y) {
        let k = choose|k: int| 0 <= k < v.len() && v[k] == y;
        assert(numbers_of(v)[k] == y as int);
    }
    if numbers_of(v).contains(y as int) {
        let k = choose|k: int| 0 <= k < numbers_of(v).len() && numbers_of(v)[k] == y as int;
        assert(v[k] == y);
    }
}

/// `y` is a member of `v`.
fn holds_number(v: &Vec<i32>, y: i32) -> (r: bool)
    ensures
        r == v@.contains(y),
{
    let n = v.len();
    let mut i: usize = 0;
    while i < n
        invariant
            i <= n,
            n == v.len(),
            forall|k: int| 0 <= k < i ==> v@[k] != y,
        decreases n - i,
    {
        if v[i] == y {
            return true;
        }
        i += 1;
    }
    false
}

} // verus!
