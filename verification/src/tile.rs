//! The tiles of the board: what kind each is, where it lies and where it points.

use vstd::prelude::*;
use vstd::string::StringExecFns;
use crate::helpers::{BoardPos, Direction};

verus! {

#[derive(Eq, PartialEq, Structural, Hash, Debug, Clone, Copy)]
pub enum TileType {
    Empty,
    PushTile,
    PrioTile,
    AltTile,
    RotTileCW,
    RotTileCCW,
    DelayTile,
}

impl TileType {
    /// The rank of the kind: of the tiles under one block object, only those of the
    /// highest rank act on it.
    pub open spec fn priority(self) -> int {
        match self {
            TileType::Empty => 0,
            TileType::PushTile => 3,
            TileType::PrioTile => 4,
            TileType::AltTile => 3,
            TileType::RotTileCW => 1,
            TileType::RotTileCCW => 1,
            TileType::DelayTile => 2,
        }
    }

    /// The player may turn a tile of this kind.
    pub open spec fn turnable(self) -> bool {
        self.pushes()
    }

    /// A tile of this kind moves what lies on it one cell in its direction.
    pub open spec fn pushes(self) -> bool {
        self == TileType::PushTile || self == TileType::PrioTile || self == TileType::AltTile
            || self == TileType::DelayTile
    }

    /// A tile of this kind turns what lies on it about itself.
    pub open spec fn turns(self) -> bool {
        self == TileType::RotTileCW || self == TileType::RotTileCCW
    }

    /// The name of the kind in the names of its pictures.
    pub open spec fn picture_name(self) -> Seq<char> {
        match self {
            TileType::Empty => "empty_tile"@,
            TileType::PushTile => "push_tile"@,
            TileType::PrioTile => "prio_tile"@,
            TileType::AltTile => "alt_tile"@,
            TileType::RotTileCW => "rot_tile_cw"@,
            TileType::RotTileCCW => "rot_tile_ccw"@,
            TileType::DelayTile => "delay_tile"@,
        }
    }

    pub fn get_priority(&self) -> (p: u8)
        ensures
            p == self.priority(),
    {
        match self {
            TileType::Empty => 0,
            TileType::PushTile => 3,
            TileType::PrioTile => 4,
            TileType::AltTile => 3,
            TileType::RotTileCW => 1,
            TileType::RotTileCCW => 1,
            TileType::DelayTile => 2,
        }
    }

    pub fn rotatable(&self) -> (r: bool)
        ensures
            r == self.turnable(),
    {
        match self {
            TileType::Empty => false,
            TileType::PushTile => true,
            TileType::PrioTile => true,
            TileType::AltTile => true,
            TileType::RotTileCW => false,
            TileType::RotTileCCW => false,
            TileType::DelayTile => true,
        }
    }

    pub fn is_push_tile(&self) -> (r: bool)
        ensures
            r == self.pushes(),
    {
        match self {
            TileType::Empty => false,
            TileType::PushTile => true,
            TileType::PrioTile => true,
            TileType::AltTile => true,
            TileType::RotTileCW => false,
            TileType::RotTileCCW => false,
            TileType::DelayTile => true,
        }
    }

    pub fn is_rot_tile(&self) -> (r: bool)
        ensures
            r == self.turns(),
    {
        match self {
            TileType::Empty => false,
            TileType::PushTile => false,
            TileType::PrioTile => false,
            TileType::AltTile => false,
            TileType::RotTileCW => true,
            TileType::RotTileCCW => true,
            TileType::DelayTile => false,
        }
    }
}

/// Tiles of one rank are of one class: all of them push, all of them turn, or none does
/// either. No kind both pushes and turns.
pub proof fn lemma_rank_decides_class(a: TileType, b: TileType)
    requires
        a.priority() == b.priority(),
    ensures
        a.pushes() == b.pushes(),
        a.turns() == b.turns(),
        !(a.pushes() && a.turns()),
        0 <= a.priority() <= 4,
{
}

/// What a tile is, as contracts see it.
pub struct TileView {
    pub tiletype: TileType,
    pub dir: Direction,
    pub pos: BoardPos,
    /// The direction that `load_dir` brings back.
    pub saved_dir: Direction,
}

#[derive(Clone, Copy, Debug)]
pub struct Tile {
    tiletype: TileType,
    dir: Direction,
    pos: BoardPos,
    orinal_dir: Direction,
}

impl View for Tile {
    type V = TileView;

    closed spec fn view(&self) -> TileView {
        TileView {
            tiletype: self.tiletype,
            dir: self.dir,
            pos: self.pos,
            saved_dir: self.orinal_dir,
        }
    }
}

/// The views of a list of tiles, in the order of the list.
pub open spec fn tile_views(tiles: Seq<Tile>) -> Seq<TileView> {
    tiles.map_values(|t: Tile| t@)
}

/// The positions of a list of tiles, in the order of the list.
pub open spec fn tile_positions(tiles: Seq<TileView>) -> Seq<BoardPos> {
    tiles.map_values(|t: TileView| t.pos)
}

impl Tile {
    pub fn new(tiletype: TileType, pos: BoardPos) -> (t: Tile)
        ensures
            t@ == (TileView { tiletype, dir: Direction::Right, pos, saved_dir: Direction::Right }),
    {
        Tile { tiletype, dir: Direction::Right, pos, orinal_dir: Direction::Right }
    }

    pub fn new_directional(tiletype: TileType, pos: BoardPos, dir: Direction) -> (t: Tile)
        ensures
            t@ == (TileView { tiletype, dir, pos, saved_dir: dir }),
    {
        Tile { tiletype, dir, pos, orinal_dir: dir }
    }

    pub fn get_pos(&self) -> (p: BoardPos)
        ensures
            p == self@.pos,
    {
        self.pos
    }

    pub fn get_x(&self) -> (x: i32)
        ensures
            x == self@.pos.x,
    {
        self.pos.x
    }

    pub fn get_y(&self) -> (y: i32)
        ensures
            y == self@.pos.y,
    {
        self.pos.y
    }

    pub fn get_type(&self) -> (t: TileType)
        ensures
            t == self@.tiletype,
    {
        self.tiletype
    }

    pub fn get_dir(&self) -> (d: Direction)
        ensures
            d == self@.dir,
    {
        self.dir
    }

    pub fn pos_eq(&self, other: &Tile) -> (r: bool)
        ensures
            r == (self@.pos == other@.pos),
    {
        self.pos.x == other.pos.x && self.pos.y == other.pos.y
    }

    pub fn rotate_cw(&mut self)
        ensures
            final(self)@ == (TileView { dir: old(self)@.dir.turned_cw(), ..old(self)@ }),
    {
        self.dir = self.dir.clockwise();
    }

    pub fn rotate_ccw(&mut self)
        ensures
            final(self)@ == (TileView { dir: old(self)@.dir.turned_ccw(), ..old(self)@ }),
    {
        self.dir = self.dir.counterclockwise();
    }

    pub fn set_dir(&mut self, dir: Direction)
        ensures
            final(self)@ == (TileView { dir, ..old(self)@ }),
    {
        self.dir = dir;
    }

    /// The name of the picture of the tile: the name of its kind and, for a kind that the
    /// player may turn, an underscore and the name of its direction.
    pub fn image_name(&self) -> (name: String)
        ensures
            name@ == if self@.tiletype.turnable() {
                self@.tiletype.picture_name() + "_"@ + self@.dir.name()
            } else {
                self@.tiletype.picture_name()
            },
    {
        let mut name = String::from_str(
            match self.tiletype {
                TileType::Empty => "empty_tile",
                TileType::PushTile => "push_tile",
                TileType::PrioTile => "prio_tile",
                TileType::AltTile => "alt_tile",
                TileType::RotTileCW => "rot_tile_cw",
                TileType::RotTileCCW => "rot_tile_ccw",
                TileType::DelayTile => "delay_tile",
            },
        );
        if self.tiletype.rotatable() {
            name.append("_");
            name.append(self.dir.to_string());
        }
        name
    }

    /// Remembers the present direction, for `load_dir` to bring back.
    pub fn save_dir(&mut self)
        ensures
            final(self)@ == (TileView { saved_dir: old(self)@.dir, ..old(self)@ }),
    {
        self.orinal_dir = self.dir;
    }

    /// Brings back the direction that `save_dir` remembered.
    pub fn load_dir(&mut self)
        ensures
            final(self)@ == (TileView { dir: old(self)@.saved_dir, ..old(self)@ }),
    {
        self.dir = self.orinal_dir;
    }

    /// Turns the tile to point the opposite way.
    pub fn flip_dir(&mut self)
        ensures
            final(self)@ == (TileView { dir: old(self)@.dir.reversed(), ..old(self)@ }),
    {
        self.dir = self.dir.clockwise().clockwise();
    }
}

} // verus!
