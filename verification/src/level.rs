//! A level: the objects it asks for, what the player holds, and whether the board is
//! being built or run.

use vstd::prelude::*;
use ggez::GameError;
use crate::block::{
    all_wf, fresh_view, Block, BlockObject, BlockObjectMode, BlockObjectView,
};
use crate::board::{
    can_move_to, placed_on, run_ended, run_started, tile_put, tile_removed, tile_turned, Board,
    BoardView,
};
use crate::cells::{cells_fit, turn_cells_ccw, turn_cells_cw};
use crate::helpers::{points_of, BoardPos, Point, SerializedBlockObject, SimulationError};
use crate::tick::{board_after_ticks, outcome_of, outcome_of_ticks, ticks_due, time_added, Outcome};
use crate::tile::{Tile, TileView};

verus! {

/// Whether the player builds the board or the board runs.
#[derive(Clone, Copy, PartialEq, Eq, Structural, Debug)]
pub enum LevelMode {
    Building,
    Running,
}

/// What the player holds, to place it on the board.
pub enum Holding {
    BlockObject { blockobject: BlockObject },
    Tile { tile: Tile },
    Nothing,
}

/// What the player holds, as contracts see it.
pub enum HoldingView {
    BlockObject(BlockObjectView),
    Tile(TileView),
    Nothing,
}

impl View for Holding {
    type V = HoldingView;

    open spec fn view(&self) -> HoldingView {
        match self {
            Holding::BlockObject { blockobject } => HoldingView::BlockObject(blockobject@),
            Holding::Tile { tile } => HoldingView::Tile(tile@),
            Holding::Nothing => HoldingView::Nothing,
        }
    }
}

impl Holding {
    /// A held object remembers no wrong bounding box.
    pub open spec fn wf(&self) -> bool {
        self matches Holding::BlockObject { blockobject } ==> blockobject.wf()
    }
}

/// A key that means something to a level.
#[derive(Clone, Copy, PartialEq, Eq, Structural, Debug)]
pub enum LevelKey {
    /// Turn what is held, and the tile under the cursor, a quarter: clockwise, or the
    /// other way if `reverse`.
    Rotate { reverse: bool },
    /// Take away the tile under the cursor.
    Remove,
    /// Begin the run, or end it.
    Toggle,
    /// Any other key.
    Other,
}

/// What is held is an object without blocks.
pub open spec fn holds_empty_object(h: HoldingView) -> bool {
    h matches HoldingView::BlockObject(o) && o.cells.len() == 0
}

/// What is held can be put on `pos`: if it is an object, the step that takes it there
/// and every cell it would cover can be held.
pub open spec fn can_put(h: HoldingView, pos: Point) -> bool {
    h matches HoldingView::BlockObject(o) ==> can_move_to(o, pos)
}

/// The pivot about which the player turns what is held.
pub open spec fn origin() -> Point {
    Point { x: 0, y: 0 }
}

/// What is held after a quarter turn about the origin. An object that the turn would
/// take off the grid stays as it is.
pub open spec fn held_turned(h: HoldingView, reverse: bool) -> HoldingView {
    match h {
        HoldingView::BlockObject(b) => if reverse {
            if cells_fit(turn_cells_ccw(b.cells, origin())) {
                HoldingView::BlockObject(
                    BlockObjectView { cells: turn_cells_ccw(b.cells, origin()), ..b },
                )
            } else {
                h
            }
        } else {
            if cells_fit(turn_cells_cw(b.cells, origin())) {
                HoldingView::BlockObject(
                    BlockObjectView { cells: turn_cells_cw(b.cells, origin()), ..b },
                )
            } else {
                h
            }
        },
        HoldingView::Tile(t) => HoldingView::Tile(
            TileView {
                dir: if reverse {
                    t.dir.turned_ccw()
                } else {
                    t.dir.turned_cw()
                },
                ..t
            },
        ),
        HoldingView::Nothing => HoldingView::Nothing,
    }
}

/// The board after the player has put down on `pos` what is held: a tile takes the
/// place of the tile that lies there; an object displaces what it overlaps, unless it
/// has no blocks.
pub open spec fn board_after_click(b: BoardView, h: HoldingView, pos: BoardPos) -> BoardView {
    match h {
        HoldingView::Tile(t) => tile_put(
            b,
            TileView { tiletype: t.tiletype, dir: t.dir, pos, saved_dir: t.dir },
        ),
        HoldingView::BlockObject(o) => if o.cells.len() == 0 {
            b
        } else {
            placed_on(b, o, pos@)
        },
        HoldingView::Nothing => b,
    }
}

/// The board after a key was pressed while it is being built, with the cursor on `pos`.
pub open spec fn board_after_key(b: BoardView, key: LevelKey, pos: BoardPos) -> BoardView {
    match key {
        LevelKey::Rotate { reverse } => tile_turned(b, pos, !reverse),
        LevelKey::Remove => tile_removed(b, pos),
        _ => b,
    }
}

impl Board {
    /// The player clicks on the cell `tilepos` of the board: what is held is put there.
    /// The hand is empty afterwards unless `shift` is held down. An object without
    /// blocks cannot be placed: that is an error, and nothing changes.
    pub fn mouse_click_event(&mut self, tilepos: BoardPos, held: &mut Holding, shift: bool) -> (r:
        Result<(), GameError>)
        requires
            old(self).wf(),
            old(held).wf(),
            can_put(old(held)@, tilepos@),
        ensures
            final(self).wf(),
            final(held).wf(),
            final(self)@ == board_after_click(old(self)@, old(held)@, tilepos),
            r is Err <==> holds_empty_object(old(held)@),
            final(held)@ == if shift || r is Err {
                old(held)@
            } else {
                HoldingView::Nothing
            },
    {
        match held {
            Holding::Tile { tile } => {
                self.place_tile(tile.get_type(), tilepos, tile.get_dir());
            },
            Holding::BlockObject { blockobject } => {
                let copy = blockobject.clone();
                match self.place_blockobject(copy, tilepos) {
                    Ok(()) => {},
                    Err(e) => {
                        return Err(e);
                    },
                }
            },
            Holding::Nothing => {},
        }
        if !shift {
            *held = Holding::Nothing;
        }
        Ok(())
    }

    /// A key is pressed while the board is being built, with the cursor on the cell
    /// `tile_pos`.
    pub fn key_down_event(&mut self, key: LevelKey, tile_pos: BoardPos)
        requires
            old(self).wf(),
        ensures
            final(self).wf(),
            final(self)@ == board_after_key(old(self)@, key, tile_pos),
    {
        match key {
            LevelKey::Rotate { reverse } => {
                if reverse {
                    self.rotate_tile_ccw(tile_pos);
                } else {
                    self.rotate_tile_cw(tile_pos);
                }
            },
            LevelKey::Remove => {
                self.remove_tile(tile_pos);
            },
            _ => {},
        }
    }
}

/// What a level is, as contracts see it.
pub struct LevelView {
    pub board: BoardView,
    pub held: HoldingView,
    pub mode: LevelMode,
    /// The number of objects that the level asks the player to place.
    pub required: nat,
}

/// The level after `elapsed` nanoseconds. While the board is being built nothing happens.
/// During a run the ticks that are due are carried out; a tick that wins or fails ends
/// the run, and the board is being built again.
pub open spec fn level_after_update(l: LevelView, elapsed: int) -> LevelView {
    if l.mode == LevelMode::Building {
        l
    } else {
        let begun = time_added(l.board, elapsed);
        let after = board_after_ticks(begun, ticks_due(begun));
        if outcome_of_ticks(begun, ticks_due(begun)) is Continues {
            LevelView { board: after, ..l }
        } else {
            LevelView { board: run_ended(after), mode: LevelMode::Building, ..l }
        }
    }
}

/// The level after the key that begins or ends a run. A run begins only when the board
/// holds as many placed objects as the level asks for; the hand is empty then.
pub open spec fn level_toggled(l: LevelView) -> LevelView {
    match l.mode {
        LevelMode::Building => if l.required == l.board.placed.len() {
            LevelView {
                board: run_started(l.board),
                held: HoldingView::Nothing,
                mode: LevelMode::Running,
                ..l
            }
        } else {
            l
        },
        LevelMode::Running => LevelView {
            board: run_ended(l.board),
            mode: LevelMode::Building,
            ..l
        },
    }
}

/// The level after what the key means to the level itself.
pub open spec fn level_keyed(l: LevelView, key: LevelKey) -> LevelView {
    match key {
        LevelKey::Rotate { reverse } => LevelView { held: held_turned(l.held, reverse), ..l },
        LevelKey::Toggle => level_toggled(l),
        _ => l,
    }
}

/// The level after a key was pressed with the cursor on `cursor`: first what the key
/// means to the level, then, if the board is being built, what it means to the board.
pub open spec fn level_after_key(l: LevelView, key: LevelKey, cursor: BoardPos) -> LevelView {
    let keyed = level_keyed(l, key);
    if keyed.mode == LevelMode::Building {
        LevelView { board: board_after_key(keyed.board, key, cursor), ..keyed }
    } else {
        keyed
    }
}

/// The level after a click on the cell `tilepos` of the board. Nothing happens during a
/// run, nor where what is held cannot be moved to the cell.
pub open spec fn level_after_click(l: LevelView, tilepos: BoardPos, shift: bool) -> LevelView {
    if l.mode != LevelMode::Building {
        l
    } else if !can_put(l.held, tilepos@) || holds_empty_object(l.held) {
        l
    } else {
        LevelView {
            board: board_after_click(l.board, l.held, tilepos),
            held: if shift {
                l.held
            } else {
                HoldingView::Nothing
            },
            ..l
        }
    }
}

/// The object that a record of a level describes, with the identity `id`.
pub open spec fn object_of(record: SerializedBlockObject, id: int) -> BlockObjectView {
    BlockObjectView {
        id,
        start_counter: record.counter as int,
        ..fresh_view(
            points_of(record.blocks@),
            if record.input {
                BlockObjectMode::Input
            } else {
                BlockObjectMode::Output
            },
        )
    }
}

/// A level in play: its board, the hand of the player, and whether the board runs.
pub struct LevelState {
    board: Board,
    held: Holding,
    mode: LevelMode,
    required: usize,
}

impl View for LevelState {
    type V = LevelView;

    closed spec fn view(&self) -> LevelView {
        LevelView {
            board: self.board@,
            held: self.held@,
            mode: self.mode,
            required: self.required as nat,
        }
    }
}

impl LevelState {
    /// The board is as a board should be, and a held object remembers no wrong bounding box.
    pub closed spec fn wf(&self) -> bool {
        self.board.wf() && self.held.wf()
    }

    /// A level with an empty board that is being built, an empty hand, and `required`
    /// objects to place.
    pub fn new(required: usize) -> (l: LevelState)
        ensures
            l.wf(),
            l@ == (LevelView {
                board: Board::new_view(),
                held: HoldingView::Nothing,
                mode: LevelMode::Building,
                required: required as nat,
            }),
    {
        LevelState {
            board: Board::new(),
            held: Holding::Nothing,
            mode: LevelMode::Building,
            required,
        }
    }

    /// The objects that the records of a level describe, in the order of the records: an
    /// input or an output with the cells and the count of its record, and with its place
    /// in the list, counted from 1, for its identity.
    pub fn load_level(records: &Vec<SerializedBlockObject>) -> (out: Vec<BlockObject>)
        requires
            records.len() < i32::MAX,
        ensures
            out.len() == records.len(),
            forall|i: int| 0 <= i < out.len() ==> (#[trigger] out[i])@ == object_of(records[i], i + 1),
            all_wf(out@),
    {
        let mut out: Vec<BlockObject> = Vec::new();
        let mut id_counter: i32 = 1;
        let n = records.len();
        let mut i: usize = 0;
        while i < n
            invariant
                i <= n,
                n == records.len(),
                n < i32::MAX,
                id_counter == i + 1,
                out.len() == i,
                all_wf(out@),
                forall|k: int| 0 <= k < i ==> (#[trigger] out[k])@ == object_of(records[k], k + 1),
            decreases n - i,
        {
            let sbo = &records[i];
            let mut blocks: Vec<Block> = Vec::new();
            let mode = if sbo.input {
                BlockObjectMode::Input
            } else {
                BlockObjectMode::Output
            };
            let m = sbo.blocks.len();
            let mut j: usize = 0;
            while j < m
                invariant
                    j <= m,
                    m == sbo.blocks.len(),
                    blocks.len() == j,
                    forall|k: int| 0 <= k < j ==> (#[trigger] blocks@[k]).pos == sbo.blocks@[k],
                decreases m - j,
            {
                blocks.push(Block::new(sbo.blocks[j]));
                j += 1;
            }
            assert(crate::block::block_cells(blocks@) =~= points_of(sbo.blocks@));
            let mut bo = BlockObject::from_blocklist(blocks, mode);
            bo.start_counter = sbo.counter;
            bo.id = id_counter;
            id_counter = id_counter + 1;
            out.push(bo);
            i += 1;
        }
        out
    }

    /// Whether the board is being built or run.
    pub fn mode(&self) -> (m: LevelMode)
        ensures
            m == self@.mode,
    {
        self.mode
    }

    /// The board.
    pub fn board(&self) -> (b: &Board)
        ensures
            b@ == self@.board,
            self.wf() ==> b.wf(),
    {
        &self.board
    }

    /// What the player holds.
    pub fn held(&self) -> (h: &Holding)
        ensures
            h@ == self@.held,
            self.wf() ==> h.wf(),
    {
        &self.held
    }

    /// Puts `held` into the hand of the player, in place of what was there.
    pub fn hold(&mut self, held: Holding)
        requires
            old(self).wf(),
            held.wf(),
        ensures
            final(self).wf(),
            final(self)@ == (LevelView { held: held@, ..old(self)@ }),
    {
        self.held = held;
    }

    /// Lets `elapsed` nanoseconds pass.
    pub fn update(&mut self, elapsed: u64) -> (r: Result<bool, SimulationError>)
        requires
            old(self).wf(),
            old(self)@.board.animation_timer + elapsed <= u64::MAX,
        ensures
            final(self).wf(),
            final(self)@ == level_after_update(old(self)@, elapsed as int),
            old(self)@.mode == LevelMode::Building ==> outcome_of(r) == Outcome::Continues,
            old(self)@.mode == LevelMode::Running ==> outcome_of(r) == outcome_of_ticks(
                time_added(old(self)@.board, elapsed as int),
                ticks_due(time_added(old(self)@.board, elapsed as int)),
            ),
    {
        let result = self.board.update(elapsed, &self.mode);
        match result {
            Ok(won) => {
                if won {
                    self.mode = LevelMode::Building;
                    let _ = self.board.process_end();
                }
                Ok(won)
            },
            Err(e) => {
                self.mode = LevelMode::Building;
                let _ = self.board.process_end();
                Err(e)
            },
        }
    }

    /// The player clicks on the cell `tilepos` of the board. Nothing happens during a run,
    /// nor where what is held cannot be moved to the cell. An object without blocks
    /// cannot be placed: that is an error, and nothing changes.
    pub fn mouse_click_event(&mut self, tilepos: BoardPos, shift: bool) -> (r: Result<
        (),
        GameError,
    >)
        requires
            old(self).wf(),
        ensures
            final(self).wf(),
            final(self)@ == level_after_click(old(self)@, tilepos, shift),
            r is Err <==> (old(self)@.mode == LevelMode::Building && holds_empty_object(
                old(self)@.held,
            )),
    {
        match self.mode {
            LevelMode::Building => {
                let fits = match &mut self.held {
                    Holding::BlockObject { blockobject } => Board::placement_fits(
                        blockobject,
                        tilepos,
                    ),
                    _ => true,
                };
                if fits {
                    self.board.mouse_click_event(tilepos, &mut self.held, shift)
                } else {
                    Ok(())
                }
            },
            LevelMode::Running => Ok(()),
        }
    }

    /// A key is pressed with the cursor on the cell `cursor` of the board. The result
    /// says whether the key asked for a run that cannot begin, because not every object
    /// that the level asks for is placed.
    pub fn key_down_event(&mut self, key: LevelKey, cursor: BoardPos) -> (refused: bool)
        requires
            old(self).wf(),
        ensures
            final(self).wf(),
            final(self)@ == level_after_key(old(self)@, key, cursor),
            refused == (key == LevelKey::Toggle && old(self)@.mode == LevelMode::Building
                && old(self)@.required != old(self)@.board.placed.len()),
    {
        let mut refused = false;
        match key {
            LevelKey::Rotate { reverse } => {
                let pivot = BoardPos { x: 0, y: 0 };
                match &mut self.held {
                    Holding::BlockObject { blockobject } => {
                        if blockobject.can_rotate(pivot, !reverse) {
                            if reverse {
                                blockobject.rotate_ccw(pivot);
                            } else {
                                blockobject.rotate_cw(pivot);
                            }
                        }
                    },
                    Holding::Tile { tile } => {
                        if reverse {
                            tile.rotate_ccw();
                        } else {
                            tile.rotate_cw();
                        }
                    },
                    Holding::Nothing => {},
                }
            },
            LevelKey::Toggle => {
                match self.mode {
                    LevelMode::Building => {
                        if self.required == self.board.num_blockobjects() {
                            self.process_start();
                            self.mode = LevelMode::Running;
                        } else {
                            refused = true;
                        }
                    },
                    LevelMode::Running => {
                        self.process_end();
                        self.mode = LevelMode::Building;
                    },
                }
            },
            _ => {},
        }
        if self.mode == LevelMode::Building {
            self.board.key_down_event(key, cursor);
        }
        refused
    }

    /// Empties the hand and begins the run of the board.
    fn process_start(&mut self)
        requires
            old(self).wf(),
        ensures
            final(self).wf(),
            final(self)@ == (LevelView {
                board: run_started(old(self)@.board),
                held: HoldingView::Nothing,
                ..old(self)@
            }),
    {
        self.held = Holding::Nothing;
        let _ = self.board.process_start();
    }

    /// Ends the run of the board.
    fn process_end(&mut self)
        requires
            old(self).wf(),
        ensures
            final(self).wf(),
            final(self)@ == (LevelView { board: run_ended(old(self)@.board), ..old(self)@ }),
    {
        let _ = self.board.process_end();
    }
}

} // verus!
