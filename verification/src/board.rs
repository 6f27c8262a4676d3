//! The board: its tiles, the objects placed on it, and the objects in flight during a run.

use vstd::prelude::*;
use vstd::string::StringExecFns;
use ggez::GameError;
use crate::block::{
    all_solid, all_wf, views_of, BlockObject, BlockObjectView,
};
use crate::cells::{cells_fit, cells_overlap, lemma_overlap_symmetric, shift_cells, top_left_of};
use crate::flips::{flip_alternating, tile_lists};
use crate::helpers::{points_of, BoardPos, Direction, Point, SimulationError};
use crate::level::LevelMode;
use crate::merge::merge_groups;
use crate::motion::move_all;
use crate::output::take_outputs;
use crate::relevance::relevant_tiles_of_each;
use crate::resolve::Resolution;
use crate::seqs::{lemma_filter_start, lemma_filter_step};
use crate::spawn::{all_outputs_filled, clear_just_moved, spawn_inputs};
use crate::split::{apply_splits, find_conflict, lemma_moves_count, resolve_each};
use crate::text::decimal_text;
use crate::tick::{
    acting, arrived, board_after_tick, board_after_ticks, cells_near, COORD_LIMIT, flying,
    ids_after_merging, ids_after_splits, ids_after_spawn, in_range, lemma_before_moves,
    lemma_id_room, lemma_spawn_stage, lemma_tick_keeps_wf, merged, merged_moves,
    near, objects_near, outcome_of, outcome_of_tick, outcome_of_ticks, overflow_message, parted,
    placed_after_spawn, resolved, rested_all, taking, tick_begun, ticks_due, time_added,
};
use crate::tile::{tile_positions, tile_views, Tile, TileType, TileView};

verus! {

/// The time that one tick takes, in nanoseconds.
pub const ANIMATION_DURATION: u64 = 400_000_000;

/// What a board is, as contracts see it.
pub struct BoardView {
    pub tiles: Seq<TileView>,
    /// The inputs and outputs that the player placed.
    pub placed: Seq<BlockObjectView>,
    /// The objects in flight.
    pub active: Seq<BlockObjectView>,
    pub game_ticks: int,
    /// The identity that the next new object in flight gets.
    pub next_id: int,
    /// The time that one tick takes, in nanoseconds.
    pub animation_duration: int,
    /// The time that has passed and no tick has used yet, in nanoseconds.
    pub animation_timer: int,
}

/// No two tiles lie on one cell.
pub open spec fn tiles_apart(tiles: Seq<TileView>) -> bool {
    forall|i: int, j: int|
        0 <= i < tiles.len() && 0 <= j < tiles.len() && i != j ==> (#[trigger] tiles[i]).pos != (
        #[trigger] tiles[j]).pos
}

/// No two objects of the list have a cell in common.
pub open spec fn objects_apart(objects: Seq<BlockObjectView>) -> bool {
    forall|i: int, j: int|
        0 <= i < objects.len() && 0 <= j < objects.len() && i != j ==> !cells_overlap(
            (#[trigger] objects[i]).cells,
            (#[trigger] objects[j]).cells,
        )
}

/// The identities of the objects are not negative, below `next_id`, and grow along the list.
pub open spec fn ids_fresh(objects: Seq<BlockObjectView>, next_id: int) -> bool {
    &&& forall|i: int| 0 <= i < objects.len() ==> 0 <= (#[trigger] objects[i]).id < next_id
    &&& forall|i: int, j: int|
        0 <= i < j < objects.len() ==> (#[trigger] objects[i]).id < (#[trigger] objects[j]).id
}

/// Objects with fresh identities have an identity each: no two share one.
pub proof fn lemma_ids_unique(objects: Seq<BlockObjectView>, next_id: int)
    requires
        ids_fresh(objects, next_id),
    ensures
        forall|i: int, j: int|
            0 <= i < objects.len() && 0 <= j < objects.len() && i != j ==> (
            #[trigger] objects[i]).id != (#[trigger] objects[j]).id,
{
    assert forall|i: int, j: int|
        0 <= i < objects.len() && 0 <= j < objects.len() && i != j implies (
    #[trigger] objects[i]).id != (#[trigger] objects[j]).id by {
        if i < j {
            assert(objects[i].id < objects[j].id);
        } else {
            assert(objects[j].id < objects[i].id);
        }
    }
}

impl BoardView {
    /// What holds of every board: a tick takes time, every object has cells, no two tiles
    /// share a cell, no two placed objects overlap, and every object in flight has an
    /// identity of its own that is not negative.
    pub open spec fn wf(self) -> bool {
        &&& self.animation_duration > 0
        &&& self.game_ticks >= 0
        &&& self.next_id >= 0
        &&& all_solid(self.placed)
        &&& all_solid(self.active)
        &&& tiles_apart(self.tiles)
        &&& objects_apart(self.placed)
        &&& ids_fresh(self.active, self.next_id)
    }
}

/// The tiles, the placed objects and the objects in flight of one puzzle.
pub struct Board {
    animation_duration: u64,
    animation_timer: u64,
    game_ticks: i32,
    next_id: i32,
    tiles: Vec<Tile>,
    blockobjects: Vec<BlockObject>,
    activeblockobjects: Vec<BlockObject>,
}

impl View for Board {
    type V = BoardView;

    closed spec fn view(&self) -> BoardView {
        BoardView {
            tiles: tile_views(self.tiles@),
            placed: views_of(self.blockobjects@),
            active: views_of(self.activeblockobjects@),
            game_ticks: self.game_ticks as int,
            next_id: self.next_id as int,
            animation_duration: self.animation_duration as int,
            animation_timer: self.animation_timer as int,
        }
    }
}

/// The object is displaced when `new` is placed: it has the identity of `new`, unless
/// that is -1, or it shares a cell with `new`.
pub open spec fn displaced_by(b: BlockObjectView, new: BlockObjectView) -> bool {
    (new.id != -1 && b.id == new.id) || cells_overlap(b.cells, new.cells)
}

/// The test "is not displaced by `new`", as a value.
pub open spec fn not_displaced_by(new: BlockObjectView) -> spec_fn(BlockObjectView) -> bool {
    |b: BlockObjectView| !displaced_by(b, new)
}

/// The object moved so that the corner of its bounding box with the smallest coordinates
/// lies on `pos`.
pub open spec fn moved_to(b: BlockObjectView, pos: Point) -> BlockObjectView {
    BlockObjectView {
        cells: shift_cells(
            b.cells,
            pos.x - top_left_of(b.cells).x,
            pos.y - top_left_of(b.cells).y,
        ),
        ..b
    }
}

/// The object can be moved so that the corner of its bounding box with the smallest
/// coordinates lies on `pos`: the step and every cell it leads to can be held.
pub open spec fn can_move_to(b: BlockObjectView, pos: Point) -> bool {
    &&& i32::MIN <= pos.x - top_left_of(b.cells).x <= i32::MAX
    &&& i32::MIN <= pos.y - top_left_of(b.cells).y <= i32::MAX
    &&& cells_fit(moved_to(b, pos).cells)
}

/// The board with `new` placed on `pos`: the placed objects that `new` displaces are
/// gone, and `new`, moved to `pos`, comes last.
pub open spec fn placed_on(b: BoardView, new: BlockObjectView, pos: Point) -> BoardView {
    BoardView {
        placed: b.placed.filter(not_displaced_by(moved_to(new, pos))).push(moved_to(new, pos)),
        ..b
    }
}

/// The tile that remembers how it points now.
pub open spec fn tile_saved(t: TileView) -> TileView {
    TileView { saved_dir: t.dir, ..t }
}

/// The tile that points again as it remembers.
pub open spec fn tile_loaded(t: TileView) -> TileView {
    TileView { dir: t.saved_dir, ..t }
}

/// The placed object that expects or sends again what it did at first.
pub open spec fn recounted(b: BlockObjectView) -> BlockObjectView {
    BlockObjectView { counter: b.start_counter, ..b }
}

/// The board when a run begins: every placed object expects or sends what it did at
/// first, every tile remembers how it points, no tick has passed, and the first tick is due.
pub open spec fn run_started(b: BoardView) -> BoardView {
    BoardView {
        tiles: b.tiles.map_values(|t: TileView| tile_saved(t)),
        placed: b.placed.map_values(|o: BlockObjectView| recounted(o)),
        game_ticks: 0,
        animation_timer: b.animation_duration,
        ..b
    }
}

/// The board when a run has ended: the objects in flight are gone and their identities
/// free again, and every tile points as it did when the run began.
pub open spec fn run_ended(b: BoardView) -> BoardView {
    BoardView {
        tiles: b.tiles.map_values(|t: TileView| tile_loaded(t)),
        active: Seq::empty(),
        next_id: 0,
        ..b
    }
}

/// The board with the tile at place `i` replaced, where `i` is a place of the list.
pub open spec fn with_tile(b: BoardView, i: int, t: TileView) -> BoardView {
    if 0 <= i < b.tiles.len() {
        BoardView { tiles: b.tiles.update(i, t), ..b }
    } else {
        b
    }
}

/// The board with the tile on `pos` turned a quarter, if a tile lies there.
pub open spec fn tile_turned(b: BoardView, pos: BoardPos, cw: bool) -> BoardView {
    let i = tile_place(b.tiles, pos);
    with_tile(
        b,
        i,
        TileView {
            dir: if cw {
                b.tiles[i].dir.turned_cw()
            } else {
                b.tiles[i].dir.turned_ccw()
            },
            ..b.tiles[i]
        },
    )
}

/// The board without the tile on `pos`.
pub open spec fn tile_removed(b: BoardView, pos: BoardPos) -> BoardView {
    let i = tile_place(b.tiles, pos);
    if i < b.tiles.len() {
        BoardView { tiles: b.tiles.remove(i), ..b }
    } else {
        b
    }
}

/// The board with a tile put on `pos`, in place of the tile that lies there if one does.
pub open spec fn tile_put(b: BoardView, t: TileView) -> BoardView {
    let i = tile_place(b.tiles, t.pos);
    if i < b.tiles.len() {
        BoardView { tiles: b.tiles.update(i, t), ..b }
    } else {
        BoardView { tiles: b.tiles.push(t), ..b }
    }
}

/// The place of the tile that lies on `pos`; the number of tiles if none does.
pub open spec fn tile_place(tiles: Seq<TileView>, pos: BoardPos) -> int
    decreases tiles.len(),
{
    if tiles.len() == 0 {
        0
    } else if tiles.last().pos == pos {
        tiles.len() - 1
    } else {
        let rest = tile_place(tiles.drop_last(), pos);
        if rest < tiles.len() - 1 {
            rest
        } else {
            tiles.len() as int
        }
    }
}

/// What `tile_place` says of tiles that lie apart: the one place where a tile lies on
/// `pos`, or the number of tiles where none does.
pub proof fn lemma_tile_place(tiles: Seq<TileView>, pos: BoardPos)
    requires
        tiles_apart(tiles),
    ensures
        0 <= tile_place(tiles, pos) <= tiles.len(),
        tile_place(tiles, pos) < tiles.len() ==> tiles[tile_place(tiles, pos)].pos == pos,
        forall|i: int|
            0 <= i < tiles.len() && i != tile_place(tiles, pos) ==> (#[trigger] tiles[i]).pos != pos,
    decreases tiles.len(),
{
    if tiles.len() > 0 {
        let front = tiles.drop_last();
        assert forall|i: int, j: int|
            0 <= i < front.len() && 0 <= j < front.len() && i != j implies (#[trigger] front[i]).pos
            != (#[trigger] front[j]).pos by {
            assert(front[i] == tiles[i] && front[j] == tiles[j]);
        }
        lemma_tile_place(front, pos);
        assert forall|i: int|
            0 <= i < tiles.len() && i != tile_place(tiles, pos) implies (#[trigger] tiles[i]).pos
            != pos by {
            if i < front.len() {
                assert(tiles[i] == front[i]);
                if tiles.last().pos == pos {
                    assert(tiles[tiles.len() - 1].pos == pos);
                }
            }
        }
        if tiles.last().pos != pos && tile_place(front, pos) < front.len() {
            assert(tiles[tile_place(front, pos)] == front[tile_place(front, pos)]);
        }
    }
}

impl Board {
    /// The objects and tiles remember no wrong bounding box, and the board is as every
    /// board is.
    pub closed spec fn wf(&self) -> bool {
        &&& all_wf(self.blockobjects@)
        &&& all_wf(self.activeblockobjects@)
        &&& self@.wf()
    }

    /// The empty board in which a tick takes `ANIMATION_DURATION`.
    pub open spec fn new_view() -> BoardView {
        BoardView {
            tiles: Seq::empty(),
            placed: Seq::empty(),
            active: Seq::empty(),
            game_ticks: 0,
            next_id: 0,
            animation_duration: ANIMATION_DURATION as int,
            animation_timer: 0,
        }
    }

    /// An empty board in which a tick takes `ANIMATION_DURATION`.
    pub fn new() -> (b: Board)
        ensures
            b.wf(),
            b@ == Board::new_view(),
    {
        let b = Board {
            animation_duration: ANIMATION_DURATION,
            animation_timer: 0,
            game_ticks: 0,
            next_id: 0,
            tiles: Vec::new(),
            blockobjects: Vec::new(),
            activeblockobjects: Vec::new(),
        };
        assert(b@.tiles =~= Seq::empty());
        assert(b@.placed =~= Seq::empty());
        assert(b@.active =~= Seq::empty());
        b
    }

    /// The tiles, in the order in which the board holds them.
    pub fn tiles(&self) -> (r: Vec<Tile>)
        ensures
            tile_views(r@) == self@.tiles,
    {
        let mut out: Vec<Tile> = Vec::new();
        let n = self.tiles.len();
        let mut i: usize = 0;
        while i < n
            invariant
                i <= n,
                n == self.tiles.len(),
                out@ =~= self.tiles@.take(i as int),
            decreases n - i,
        {
            out.push(self.tiles[i]);
            i += 1;
        }
        assert(self.tiles@.take(n as int) =~= self.tiles@);
        out
    }

    /// Copies of the placed objects, in the order in which the board holds them.
    pub fn blockobjects(&self) -> (r: Vec<BlockObject>)
        ensures
            views_of(r@) == self@.placed,
            all_wf(r@),
    {
        copies_of(&self.blockobjects)
    }

    /// Copies of the objects in flight, in the order in which the board holds them.
    pub fn activeblockobjects(&self) -> (r: Vec<BlockObject>)
        ensures
            views_of(r@) == self@.active,
            all_wf(r@),
    {
        copies_of(&self.activeblockobjects)
    }

    /// The number of ticks since the run began.
    pub fn game_ticks(&self) -> (r: i32)
        ensures
            r == self@.game_ticks,
    {
        self.game_ticks
    }

    /// The time that one tick takes, in nanoseconds.
    pub fn animation_duration(&self) -> (r: u64)
        ensures
            r == self@.animation_duration,
            self.wf() ==> r > 0,
    {
        self.animation_duration
    }

    /// The time that has passed and no tick has used yet, in nanoseconds.
    pub fn animation_timer(&self) -> (r: u64)
        ensures
            r == self@.animation_timer,
    {
        self.animation_timer
    }

    /// The number of placed objects.
    pub fn num_blockobjects(&self) -> (r: usize)
        ensures
            r == self@.placed.len(),
    {
        self.blockobjects.len()
    }

    /// The place of the tile that lies on `pos`, if one does.
    pub fn find_tile(&self, pos: BoardPos) -> (r: Option<usize>)
        requires
            self.wf(),
        ensures
            r matches Some(i) ==> i < self@.tiles.len() && i == tile_place(self@.tiles, pos),
            r is None ==> tile_place(self@.tiles, pos) == self@.tiles.len(),
    {
        let ghost views = tile_views(self.tiles@);
        let mut found: Option<usize> = None;
        let n = self.tiles.len();
        let mut i: usize = 0;
        proof {
            lemma_tile_place(views, pos);
        }
        while i < n
            invariant
                i <= n,
                n == self.tiles.len(),
                views == tile_views(self.tiles@),
                found matches Some(k) ==> k < i && views[k as int].pos == pos,
                found is None ==> forall|k: int| 0 <= k < i ==> (#[trigger] views[k]).pos != pos,
            decreases n - i,
        {
            assert(views[i as int] == self.tiles@[i as int]@);
            if self.tiles[i].get_x() == pos.x && self.tiles[i].get_y() == pos.y {
                found = Some(i);
            }
            i += 1;
        }
        found
    }

    /// Puts a tile on `pos`, in place of the tile that lies there if one does. Gives the
    /// place of the new tile.
    pub fn place_tile(&mut self, tiletype: TileType, pos: BoardPos, dir: Direction) -> (r: usize)
        requires
            old(self).wf(),
        ensures
            final(self).wf(),
            r == tile_place(old(self)@.tiles, pos),
            final(self)@ == tile_put(old(self)@, TileView { tiletype, dir, pos, saved_dir: dir }),
    {
        let newtile = Tile::new_directional(tiletype, pos, dir);
        let ghost before = tile_views(self.tiles@);
        proof {
            lemma_tile_place(before, pos);
        }
        match self.find_tile(pos) {
            Some(i) => {
                self.tiles.set(i, newtile);
                assert(tile_views(self.tiles@) =~= before.update(i as int, newtile@));
                i
            },
            None => {
                self.tiles.push(newtile);
                assert(tile_views(self.tiles@) =~= before.push(newtile@));
                self.tiles.len() - 1
            },
        }
    }

    /// Turns the tile on `pos` a quarter clockwise, if a tile lies there.
    pub fn rotate_tile_cw(&mut self, pos: BoardPos)
        requires
            old(self).wf(),
        ensures
            final(self).wf(),
            final(self)@ == tile_turned(old(self)@, pos, true),
    {
        let ghost before = tile_views(self.tiles@);
        proof {
            lemma_tile_place(before, pos);
        }
        if let Some(i) = self.find_tile(pos) {
            assert(before[i as int] == self.tiles@[i as int]@);
            self.tiles[i].rotate_cw();
            assert(tile_views(self.tiles@) =~= before.update(i as int, self.tiles@[i as int]@));
        }
    }

    /// Turns the tile on `pos` a quarter counterclockwise, if a tile lies there.
    pub fn rotate_tile_ccw(&mut self, pos: BoardPos)
        requires
            old(self).wf(),
        ensures
            final(self).wf(),
            final(self)@ == tile_turned(old(self)@, pos, false),
    {
        let ghost before = tile_views(self.tiles@);
        proof {
            lemma_tile_place(before, pos);
        }
        if let Some(i) = self.find_tile(pos) {
            assert(before[i as int] == self.tiles@[i as int]@);
            self.tiles[i].rotate_ccw();
            assert(tile_views(self.tiles@) =~= before.update(i as int, self.tiles@[i as int]@));
        }
    }

    /// Takes the tile on `pos` off the board, if a tile lies there.
    pub fn remove_tile(&mut self, pos: BoardPos)
        requires
            old(self).wf(),
        ensures
            final(self).wf(),
            final(self)@ == tile_removed(old(self)@, pos),
    {
        let ghost before = tile_views(self.tiles@);
        proof {
            lemma_tile_place(before, pos);
        }
        if let Some(i) = self.find_tile(pos) {
            self.tiles.remove(i);
            assert(tile_views(self.tiles@) =~= before.remove(i as int));
        }
    }

    /// Carries out one tick.
    pub fn process_step(&mut self) -> (r: Result<bool, SimulationError>)
        requires
            old(self).wf(),
            in_range(old(self)@),
        ensures
            final(self).wf(),
            final(self)@ == board_after_tick(old(self)@),
            outcome_of(r) == outcome_of_tick(old(self)@),
    {
        let ghost b = self@;
        proof {
            lemma_tick_keeps_wf(b);
            lemma_spawn_stage(b);
            lemma_before_moves(b);
            lemma_id_room(b);
        }
        if all_outputs_filled(&self.blockobjects) {
            return Ok(true);
        }
        if self.game_ticks % 2 == 0 {
            spawn_inputs(&mut self.blockobjects, &mut self.activeblockobjects, &mut self.next_id);
        }
        assert(views_of(self.blockobjects@) == placed_after_spawn(b));
        assert(views_of(self.activeblockobjects@) == flying(b));
        assert(self.next_id == ids_after_spawn(b));
        let rel = relevant_tiles_of_each(&self.tiles, &mut self.activeblockobjects);
        let res = resolve_each(&rel, &self.activeblockobjects);
        proof {
            assert(tile_lists(rel@) =~= acting(b)) by {
                assert forall|i: int| 0 <= i < rel.len() implies tile_lists(rel@)[i] == acting(
                    b,
                )[i] by {
                    assert(self.activeblockobjects@[i]@ == flying(b)[i]);
                }
            }
            assert(res@ =~= resolved(b)) by {
                assert forall|i: int| 0 <= i < res.len() implies res@[i] == resolved(b)[i] by {
                    assert(self.activeblockobjects@[i]@ == flying(b)[i]);
                    assert(tile_lists(rel@)[i] == tile_views(rel@[i]@));
                }
            }
        }
        match find_conflict(&res, Resolution::RotateConflict) {
            Some(k) => {
                assert(tile_lists(rel@)[k as int] == tile_views(rel@[k as int]@));
                return Err(
                    SimulationError {
                        message: String::from_str("Attempted to rotate block from multiple pivots"),
                        relevant_locations: positions_of(&rel[k]),
                    },
                );
            },
            None => {},
        }
        let mut moves = match apply_splits(
            &mut self.activeblockobjects,
            &res,
            &mut self.next_id,
        ) {
            Err(k) => {
                assert(tile_lists(rel@)[k as int] == tile_views(rel@[k as int]@));
                return Err(
                    SimulationError {
                        message: String::from_str("Attempted to move block in multiple directions"),
                        relevant_locations: positions_of(&rel[k]),
                    },
                );
            },
            Ok(moves) => moves,
        };
        assert(views_of(self.activeblockobjects@) == parted(b));
        assert(self.next_id == ids_after_splits(b));
        clear_just_moved(&mut self.activeblockobjects);
        assert(views_of(self.activeblockobjects@) == rested_all(b));
        proof {
            lemma_moves_count(flying(b), res@, ids_after_spawn(b));
            assert(flying(b).take(res@.len() as int) =~= flying(b));
            assert(res@.take(res@.len() as int) =~= res@);
        }
        merge_groups(&mut self.activeblockobjects, &mut moves, &mut self.next_id);
        assert(self.next_id == ids_after_merging(b));
        assert(views_of(self.activeblockobjects@) == merged(b));
        assert(moves@ == merged_moves(b));
        let hits = move_all(&mut self.activeblockobjects, &moves);
        assert(views_of(self.activeblockobjects@) == arrived(b));
        flip_alternating(&mut self.tiles, &rel);
        if hits.len() != 0 {
            return Err(
                SimulationError {
                    message: String::from_str("Collision occured"),
                    relevant_locations: hits,
                },
            );
        }
        assert(points_of(hits@).len() == 0);
        match take_outputs(&mut self.blockobjects, &mut self.activeblockobjects) {
            Err(o) => {
                let full = &self.blockobjects[o];
                assert(taking(b).placed[o as int] == full@);
                let message = overflow_text(full.start_counter);
                let places = full.block_locations();
                assert(points_of(places@) =~= full.cells());
                return Err(SimulationError { message, relevant_locations: places });
            },
            Ok(()) => {},
        }
        self.game_ticks = self.game_ticks + 1;
        Ok(false)
    }

    /// Places an object so that the corner of its bounding box with the smallest
    /// coordinates lies on `pos`. Every placed object that has its identity, unless that
    /// is -1, or that shares a cell with it leaves the board first. An object without
    /// blocks cannot be placed: that is an error, and the board stays as it is.
    pub fn place_blockobject(&mut self, blockobject: BlockObject, pos: BoardPos) -> (r: Result<
        (),
        GameError,
    >)
        requires
            old(self).wf(),
            blockobject.wf(),
            can_move_to(blockobject@, pos@),
        ensures
            final(self).wf(),
            r is Err <==> blockobject.cells().len() == 0,
            r is Err ==> final(self)@ == old(self)@,
            r is Ok ==> final(self)@ == placed_on(old(self)@, blockobject@, pos@),
    {
        let mut blockobject = blockobject;
        let ghost before = views_of(self.blockobjects@);
        let tl = match blockobject.get_top_left() {
            Ok(p) => p,
            Err(e) => {
                return Err(e);
            },
        };
        blockobject.translate(pos.x - tl.x, pos.y - tl.y);
        let ghost new = blockobject@;
        let ghost keep = not_displaced_by(new);
        let ghost mut done: int = 0;
        let mut i: usize = 0;
        proof {
            lemma_filter_start(before, keep);
            assert(views_of(self.blockobjects@) =~= before.take(0).filter(keep) + before.skip(0));
        }
        while i < self.blockobjects.len()
            invariant
                0 <= done <= before.len(),
                i + (before.len() - done) == self.blockobjects.len(),
                before == views_of(old(self).blockobjects@),
                all_wf(self.blockobjects@),
                blockobject.wf(),
                blockobject@ == new,
                keep == not_displaced_by(new),
                i == before.take(done).filter(keep).len(),
                views_of(self.blockobjects@) == before.take(done).filter(keep) + before.skip(done),
                all_solid(views_of(self.blockobjects@)),
                objects_apart(views_of(self.blockobjects@)),
                forall|k: int|
                    0 <= k < i ==> !cells_overlap(
                        (#[trigger] views_of(self.blockobjects@)[k]).cells,
                        new.cells,
                    ),
                self.tiles == old(self).tiles,
                self.activeblockobjects == old(self).activeblockobjects,
                self.game_ticks == old(self).game_ticks,
                self.next_id == old(self).next_id,
                self.animation_duration == old(self).animation_duration,
                self.animation_timer == old(self).animation_timer,
            decreases before.len() - done,
        {
            let ghost now = views_of(self.blockobjects@);
            proof {
                lemma_filter_step(before, keep, done);
                assert(now[i as int] == before[done]);
                assert(self.blockobjects@[i as int]@ == now[i as int]);
            }
            let same_id = blockobject.id != -1 && self.blockobjects[i].id == blockobject.id;
            let displaced = same_id || self.blockobjects[i].has_overlap(&mut blockobject);
            assert(views_of(self.blockobjects@) =~= now);
            if displaced {
                self.blockobjects.remove(i);
                proof {
                    let next = views_of(self.blockobjects@);
                    assert(next =~= now.remove(i as int));
                    assert(next =~= before.take(done + 1).filter(keep) + before.skip(done + 1));
                    assert forall|a: int, c: int|
                        0 <= a < next.len() && 0 <= c < next.len() && a != c implies !cells_overlap(
                        (#[trigger] next[a]).cells,
                        (#[trigger] next[c]).cells,
                    ) by {
                        let a0 = if a < i {
                            a
                        } else {
                            a + 1
                        };
                        let c0 = if c < i {
                            c
                        } else {
                            c + 1
                        };
                        assert(next[a] == now[a0] && next[c] == now[c0]);
                    }
                    assert forall|k: int| 0 <= k < next.len() implies (#[trigger] next[k]).cells.len()
                        > 0 by {
                        let k0 = if k < i {
                            k
                        } else {
                            k + 1
                        };
                        assert(next[k] == now[k0]);
                    }
                }
            } else {
                proof {
                    assert(now =~= before.take(done + 1).filter(keep) + before.skip(done + 1));
                }
                i += 1;
            }
            proof {
                done = done + 1;
            }
        }
        proof {
            assert(before.take(done) =~= before);
            assert(views_of(self.blockobjects@) =~= before.filter(keep));
        }
        let ghost kept = views_of(self.blockobjects@);
        self.blockobjects.push(blockobject);
        proof {
            let all = views_of(self.blockobjects@);
            assert(all =~= kept.push(new));
            assert forall|a: int, c: int|
                0 <= a < all.len() && 0 <= c < all.len() && a != c implies !cells_overlap(
                (#[trigger] all[a]).cells,
                (#[trigger] all[c]).cells,
            ) by {
                if a < kept.len() && c < kept.len() {
                    assert(all[a] == kept[a] && all[c] == kept[c]);
                } else if a < kept.len() {
                    assert(all[a] == kept[a]);
                } else {
                    assert(all[c] == kept[c]);
                    lemma_overlap_symmetric(new.cells, kept[c].cells);
                }
            }
            assert forall|k: int| 0 <= k < all.len() implies (#[trigger] all[k]).cells.len() > 0 by {
                if k < kept.len() {
                    assert(all[k] == kept[k]);
                }
            }
        }
        Ok(())
    }

    /// Begins a run: every placed object expects or sends what it did at first, every
    /// tile remembers how it points, no tick has passed, and the first tick is due at once.
    pub fn process_start(&mut self) -> (r: Result<(), GameError>)
        requires
            old(self).wf(),
        ensures
            final(self).wf(),
            r is Ok,
            final(self)@ == run_started(old(self)@),
    {
        let ghost placed = views_of(self.blockobjects@);
        let ghost tiles = tile_views(self.tiles@);
        self.animation_timer = self.animation_duration;
        let n = self.blockobjects.len();
        let mut i: usize = 0;
        while i < n
            invariant
                i <= n,
                n == self.blockobjects.len(),
                placed.len() == n,
                all_wf(self.blockobjects@),
                forall|k: int|
                    0 <= k < i ==> (#[trigger] self.blockobjects@[k])@ == (BlockObjectView {
                        counter: placed[k].start_counter,
                        ..placed[k]
                    }),
                forall|k: int| i <= k < n ==> (#[trigger] self.blockobjects@[k])@ == placed[k],
                self.tiles == old(self).tiles,
                self.activeblockobjects == old(self).activeblockobjects,
                self.next_id == old(self).next_id,
                self.animation_duration == old(self).animation_duration,
                self.animation_timer == old(self).animation_duration,
            decreases n - i,
        {
            self.blockobjects[i].counter = self.blockobjects[i].start_counter;
            i += 1;
        }
        let m = self.tiles.len();
        let mut j: usize = 0;
        while j < m
            invariant
                j <= m,
                m == self.tiles.len(),
                tiles.len() == m,
                forall|k: int|
                    0 <= k < j ==> (#[trigger] self.tiles@[k])@ == (TileView {
                        saved_dir: tiles[k].dir,
                        ..tiles[k]
                    }),
                forall|k: int| j <= k < m ==> (#[trigger] self.tiles@[k])@ == tiles[k],
                self.blockobjects@.len() == n,
                all_wf(self.blockobjects@),
                forall|k: int|
                    0 <= k < n ==> (#[trigger] self.blockobjects@[k])@ == (BlockObjectView {
                        counter: placed[k].start_counter,
                        ..placed[k]
                    }),
                self.activeblockobjects == old(self).activeblockobjects,
                self.next_id == old(self).next_id,
                self.animation_duration == old(self).animation_duration,
                self.animation_timer == old(self).animation_duration,
            decreases m - j,
        {
            self.tiles[j].save_dir();
            j += 1;
        }
        self.game_ticks = 0;
        proof {
            let new_tiles = tile_views(self.tiles@);
            let new_placed = views_of(self.blockobjects@);
            assert(new_tiles =~= tiles.map_values(|t: TileView| tile_saved(t)));
            assert(new_placed =~= placed.map_values(|o: BlockObjectView| recounted(o)));
            assert forall|a: int, c: int|
                0 <= a < new_tiles.len() && 0 <= c < new_tiles.len() && a != c implies (
            #[trigger] new_tiles[a]).pos != (#[trigger] new_tiles[c]).pos by {
                assert(new_tiles[a].pos == tiles[a].pos && new_tiles[c].pos == tiles[c].pos);
            }
            assert forall|a: int, c: int|
                0 <= a < new_placed.len() && 0 <= c < new_placed.len() && a != c implies !cells_overlap(
                (#[trigger] new_placed[a]).cells,
                (#[trigger] new_placed[c]).cells,
            ) by {
                assert(new_placed[a].cells == placed[a].cells && new_placed[c].cells
                    == placed[c].cells);
            }
            assert forall|k: int| 0 <= k < new_placed.len() implies (
            #[trigger] new_placed[k]).cells.len() > 0 by {
                assert(new_placed[k].cells == placed[k].cells);
            }
        }
        Ok(())
    }

    /// Ends a run: the objects in flight are gone, and every tile points as it did when
    /// the run began.
    pub fn process_end(&mut self) -> (r: Result<(), GameError>)
        requires
            old(self).wf(),
        ensures
            final(self).wf(),
            r is Ok,
            final(self)@ == run_ended(old(self)@),
    {
        let ghost tiles = tile_views(self.tiles@);
        self.activeblockobjects.clear();
        self.next_id = 0;
        let m = self.tiles.len();
        let mut j: usize = 0;
        while j < m
            invariant
                j <= m,
                m == self.tiles.len(),
                tiles.len() == m,
                forall|k: int|
                    0 <= k < j ==> (#[trigger] self.tiles@[k])@ == (TileView {
                        dir: tiles[k].saved_dir,
                        ..tiles[k]
                    }),
                forall|k: int| j <= k < m ==> (#[trigger] self.tiles@[k])@ == tiles[k],
                self.blockobjects == old(self).blockobjects,
                self.activeblockobjects@.len() == 0,
                self.next_id == 0,
                self.game_ticks == old(self).game_ticks,
                self.animation_duration == old(self).animation_duration,
                self.animation_timer == old(self).animation_timer,
            decreases m - j,
        {
            self.tiles[j].load_dir();
            j += 1;
        }
        proof {
            let new_tiles = tile_views(self.tiles@);
            assert(new_tiles =~= tiles.map_values(|t: TileView| tile_loaded(t)));
            assert(views_of(self.activeblockobjects@) =~= Seq::<BlockObjectView>::empty());
            assert forall|a: int, c: int|
                0 <= a < new_tiles.len() && 0 <= c < new_tiles.len() && a != c implies (
            #[trigger] new_tiles[a]).pos != (#[trigger] new_tiles[c]).pos by {
                assert(new_tiles[a].pos == tiles[a].pos && new_tiles[c].pos == tiles[c].pos);
            }
        }
        Ok(())
    }

    /// Whether the board is small enough for a tick.
    pub fn check_limits(&self) -> (r: bool)
        ensures
            r == in_range(self@),
    {
        if self.game_ticks == i32::MAX {
            return false;
        }
        let needed: i128 = self.next_id as i128 + 3 * (self.activeblockobjects.len() as i128) + 4
            * (self.blockobjects.len() as i128);
        if needed > i32::MAX as i128 {
            return false;
        }
        let n = self.tiles.len();
        let mut i: usize = 0;
        while i < n
            invariant
                i <= n,
                n == self.tiles.len(),
                forall|k: int| 0 <= k < i ==> near((#[trigger] tile_views(self.tiles@)[k]).pos@),
            decreases n - i,
        {
            if !is_near(self.tiles[i].get_pos()) {
                assert(!near(tile_views(self.tiles@)[i as int].pos@));
                return false;
            }
            i += 1;
        }
        all_near(&self.blockobjects) && all_near(&self.activeblockobjects)
    }

    /// Lets `elapsed` nanoseconds pass. While the board is being built nothing happens.
    /// During a run every whole tick for which the time has come is carried out, until
    /// one of them wins or fails; a board that is out of range fails before its tick.
    /// The result is `Ok(true)` if the run is won.
    pub fn update(&mut self, elapsed: u64, mode: &LevelMode) -> (r: Result<bool, SimulationError>)
        requires
            old(self).wf(),
            old(self)@.animation_timer + elapsed <= u64::MAX,
        ensures
            final(self).wf(),
            *mode == LevelMode::Building ==> final(self)@ == old(self)@ && r == Ok::<
                bool,
                SimulationError,
            >(false),
            *mode == LevelMode::Running ==> final(self)@ == board_after_ticks(
                time_added(old(self)@, elapsed as int),
                ticks_due(time_added(old(self)@, elapsed as int)),
            ) && outcome_of(r) == outcome_of_ticks(
                time_added(old(self)@, elapsed as int),
                ticks_due(time_added(old(self)@, elapsed as int)),
            ),
    {
        match *mode {
            LevelMode::Building => Ok(false),
            LevelMode::Running => {
                self.animation_timer = self.animation_timer + elapsed;
                let ghost start = self@;
                assert(start == time_added(old(self)@, elapsed as int));
                while self.animation_timer >= self.animation_duration
                    invariant
                        self.wf(),
                        *mode == LevelMode::Running,
                        start == time_added(old(self)@, elapsed as int),
                        board_after_ticks(start, ticks_due(start)) == board_after_ticks(
                            self@,
                            ticks_due(self@),
                        ),
                        outcome_of_ticks(start, ticks_due(start)) == outcome_of_ticks(
                            self@,
                            ticks_due(self@),
                        ),
                    decreases self.animation_timer,
                {
                    let ghost now = self@;
                    proof {
                        lemma_ticks_due(now);
                    }
                    self.animation_timer = self.animation_timer - self.animation_duration;
                    assert(self@ == tick_begun(now));
                    if !self.check_limits() {
                        let nowhere: Vec<BoardPos> = Vec::new();
                        assert(points_of(nowhere@) =~= Seq::<Point>::empty());
                        return Err(
                            SimulationError {
                                message: String::from_str("Board out of range"),
                                relevant_locations: nowhere,
                            },
                        );
                    }
                    match self.process_step() {
                        Ok(won) => {
                            if won {
                                return Ok(true);
                            }
                        },
                        Err(e) => {
                            return Err(e);
                        },
                    }
                }
                proof {
                    lemma_no_tick_due(self@);
                }
                Ok(false)
            },
        }
    }

    /// Whether `blockobject` can be placed on `pos`: whether the step that takes it there
    /// and every cell it would cover can be held.
    pub fn placement_fits(blockobject: &mut BlockObject, pos: BoardPos) -> (r: bool)
        requires
            old(blockobject).wf(),
        ensures
            r == can_move_to(old(blockobject)@, pos@),
            final(blockobject)@ == old(blockobject)@,
            final(blockobject).wf(),
    {
        let tl = match blockobject.get_top_left() {
            Ok(p) => p,
            Err(_) => {
                assert(shift_cells(blockobject.cells(), pos.x - 0, pos.y - 0) =~= blockobject.cells());
                return true;
            },
        };
        let dx: i64 = pos.x as i64 - tl.x as i64;
        let dy: i64 = pos.y as i64 - tl.y as i64;
        if dx < i32::MIN as i64 || dx > i32::MAX as i64 || dy < i32::MIN as i64 || dy
            > i32::MAX as i64 {
            return false;
        }
        blockobject.can_translate(dx as i32, dy as i32)
    }
}

/// Copies of the objects of the list, in order.
fn copies_of(objects: &Vec<BlockObject>) -> (r: Vec<BlockObject>)
    ensures
        views_of(r@) == views_of(objects@),
        all_wf(r@),
{
    let mut out: Vec<BlockObject> = Vec::new();
    let n = objects.len();
    let mut i: usize = 0;
    while i < n
        invariant
            i <= n,
            n == objects.len(),
            out.len() == i,
            all_wf(out@),
            forall|k: int| 0 <= k < i ==> (#[trigger] out@[k])@ == objects@[k]@,
        decreases n - i,
    {
        out.push(objects[i].clone());
        i += 1;
    }
    assert(views_of(out@) =~= views_of(objects@));
    out
}

/// The positions of the tiles, in the order of the list.
fn positions_of(tiles: &Vec<Tile>) -> (r: Vec<BoardPos>)
    ensures
        r@ == tile_positions(tile_views(tiles@)),
{
    let mut out: Vec<BoardPos> = Vec::new();
    let n = tiles.len();
    let mut i: usize = 0;
    while i < n
        invariant
            i <= n,
            n == tiles.len(),
            out@ =~= tile_positions(tile_views(tiles@)).take(i as int),
        decreases n - i,
    {
        out.push(tiles[i].get_pos());
        i += 1;
    }
    assert(tile_positions(tile_views(tiles@)).take(n as int) =~= tile_positions(tile_views(tiles@)));
    out
}

/// The message for an output that expected `expected` objects in all and is offered one more.
fn overflow_text(expected: i32) -> (s: String)
    ensures
        s@ == overflow_message(expected as int),
{
    let mut s = String::from_str("Too many objects in one output (expected ");
    let number = decimal_text(expected);
    s.append(number.as_str());
    s.append(")");
    s
}

/// Taking the time of one tick off the timer takes one off the ticks that are due.
proof fn lemma_ticks_due(b: BoardView)
    requires
        b.animation_duration > 0,
        b.animation_timer >= b.animation_duration,
    ensures
        ticks_due(b) >= 1,
        ticks_due(tick_begun(b)) == ticks_due(b) - 1,
{
    let d = b.animation_duration;
    let t = b.animation_timer;
    assert(t / d >= 1 && (t - d) / d == t / d - 1) by (nonlinear_arith)
        requires
            d > 0,
            t >= d,
    ;
}

/// With less than the time of one tick on the timer, no tick is due.
proof fn lemma_no_tick_due(b: BoardView)
    requires
        b.animation_duration > 0,
        0 <= b.animation_timer < b.animation_duration,
    ensures
        ticks_due(b) == 0,
{
    let d = b.animation_duration;
    let t = b.animation_timer;
    assert(t / d == 0) by (nonlinear_arith)
        requires
            d > 0,
            0 <= t < d,
    ;
}

/// Both coordinates of the position are at most `COORD_LIMIT` in size.
fn is_near(p: BoardPos) -> (r: bool)
    ensures
        r == near(p@),
{
    -COORD_LIMIT <= p.x && p.x <= COORD_LIMIT && -COORD_LIMIT <= p.y && p.y <= COORD_LIMIT
}

/// Every cell of every object of the list is near.
fn all_near(objects: &Vec<BlockObject>) -> (r: bool)
    ensures
        r == objects_near(views_of(objects@)),
{
    let n = objects.len();
    let mut i: usize = 0;
    while i < n
        invariant
            i <= n,
            n == objects.len(),
            forall|k: int| 0 <= k < i ==> cells_near((#[trigger] views_of(objects@)[k]).cells),
        decreases n - i,
    {
        let object = &objects[i];
        let m = object.blocks.len();
        let mut j: usize = 0;
        while j < m
            invariant
                j <= m,
                i < n,
                n == objects.len(),
                object == objects@[i as int],
                m == object.blocks.len(),
                forall|k: int| 0 <= k < j ==> near(#[trigger] object.cells()[k]),
            decreases m - j,
        {
            if !is_near(object.blocks[j].pos) {
                assert(!near(views_of(objects@)[i as int].cells[j as int]));
                return false;
            }
            j += 1;
        }
        assert(views_of(objects@)[i as int].cells == object.cells());
        i += 1;
    }
    true
}

} // verus!
