//! Alternating tiles turn round after every tick in which they acted on an object.

use vstd::prelude::*;
use crate::helpers::BoardPos;
use crate::tile::{tile_views, Tile, TileType, TileView};

verus! {

/// The views of the lists of tiles, list by list.
pub open spec fn tile_lists(rel: Seq<Vec<Tile>>) -> Seq<Seq<TileView>> {
    rel.map_values(|v: Vec<Tile>| tile_views(v@))
}

/// One of the lists holds an alternating tile that lies on `pos`.
pub open spec fn alternates_at(rel: Seq<Seq<TileView>>, pos: BoardPos) -> bool {
    exists|i: int, j: int|
        0 <= i < rel.len() && 0 <= j < rel[i].len() && (#[trigger] rel[i][j]).tiletype
            == TileType::AltTile && rel[i][j].pos == pos
}

/// The tile turned to point the opposite way.
pub open spec fn flipped(t: TileView) -> TileView {
    TileView { dir: t.dir.reversed(), ..t }
}

/// The tile after the tick: turned round if an alternating tile on its cell acted on an object.
pub open spec fn after_flip(t: TileView, rel: Seq<Seq<TileView>>) -> TileView {
    if alternates_at(rel, t.pos) {
        flipped(t)
    } else {
        t
    }
}

/// The tiles after the tick, in their order.
pub open spec fn after_flips(tiles: Seq<TileView>, rel: Seq<Seq<TileView>>) -> Seq<TileView> {
    Seq::new(tiles.len(), |i: int| after_flip(tiles[i], rel))
}

/// One of the lists holds an alternating tile that lies on `pos`.
fn finds_alternating(rel: &Vec<Vec<Tile>>, pos: BoardPos) -> (r: bool)
    ensures
        r == alternates_at(tile_lists(rel@), pos),
{
    let ghost lists = tile_lists(rel@);
    let n = rel.len();
    let mut i: usize = 0;
    while i < n
        invariant
            i <= n,
            n == rel.len(),
            lists == tile_lists(rel@),
            forall|a: int, b: int|
                0 <= a < i && 0 <= b < lists[a].len() ==> !((#[trigger] lists[a][b]).tiletype
                    == TileType::AltTile && lists[a][b].pos == pos),
        decreases n - i,
    {
        let list = &rel[i];
        assert(lists[i as int] == tile_views(list@));
        let m = list.len();
        let mut j: usize = 0;
        while j < m
            invariant
                j <= m,
                i < n,
                n == rel.len(),
                m == list.len(),
                lists == tile_lists(rel@),
                lists[i as int] == tile_views(list@),
                forall|a: int, b: int|
                    0 <= a < i && 0 <= b < lists[a].len() ==> !((#[trigger] lists[a][b]).tiletype
                        == TileType::AltTile && lists[a][b].pos == pos),
                forall|b: int|
                    0 <= b < j ==> !((#[trigger] lists[i as int][b]).tiletype == TileType::AltTile
                        && lists[i as int][b].pos == pos),
            decreases m - j,
        {
            let t = list[j];
            assert(lists[i as int][j as int] == t@);
            if t.get_type() == TileType::AltTile && t.get_pos() == pos {
                return true;
            }
            j += 1;
        }
        i += 1;
    }
    false
}

/// Turns round every tile on whose cell an alternating tile of `rel` lies.
pub fn flip_alternating(tiles: &mut Vec<Tile>, rel: &Vec<Vec<Tile>>)
    ensures
        tile_views(final(tiles)@) == after_flips(tile_views(old(tiles)@), tile_lists(rel@)),
{
    let ghost before = tile_views(tiles@);
    let n = tiles.len();
    let mut i: usize = 0;
    while i < n
        invariant
            i <= n,
            n == tiles.len(),
            before.len() == n,
            forall|k: int|
                0 <= k < i ==> (#[trigger] tiles@[k])@ == after_flip(before[k], tile_lists(rel@)),
            forall|k: int| i <= k < n ==> (#[trigger] tiles@[k])@ == before[k],
        decreases n - i,
    {
        assert(tiles@[i as int]@ == before[i as int]);
        if finds_alternating(rel, tiles[i].get_pos()) {
            tiles[i].flip_dir();
        }
        i += 1;
    }
    assert(tile_views(tiles@) =~= after_flips(before, tile_lists(rel@)));
}

} // verus!
