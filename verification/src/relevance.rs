//! Which tiles act on a block object: those under it that have the highest rank found there.

use vstd::prelude::*;
use crate::block::{all_wf, views_of, BlockObject};
use crate::helpers::Point;
use crate::seqs::{lemma_filter_none, lemma_filter_push, lemma_filter_start, lemma_filter_step};
use crate::tile::{tile_views, Tile, TileView};

verus! {

/// The test "lies on one of `cells`", as a value.
pub open spec fn lies_under(cells: Seq<Point>) -> spec_fn(TileView) -> bool {
    |t: TileView| cells.contains(t.pos@)
}

/// The test "has the rank `rank`", as a value.
pub open spec fn of_rank(rank: int) -> spec_fn(TileView) -> bool {
    |t: TileView| t.tiletype.priority() == rank
}

/// The tiles that lie under a shape, in the order of `tiles`.
pub open spec fn tiles_under(tiles: Seq<TileView>, cells: Seq<Point>) -> Seq<TileView> {
    tiles.filter(lies_under(cells))
}

/// The highest rank among the tiles; 0 where there is none.
pub open spec fn top_rank(tiles: Seq<TileView>) -> int
    decreases tiles.len(),
{
    if tiles.len() == 0 {
        0
    } else {
        let rest = top_rank(tiles.drop_last());
        if tiles.last().tiletype.priority() > rest {
            tiles.last().tiletype.priority()
        } else {
            rest
        }
    }
}

/// The tiles that act on a shape: of the tiles under it, those of the highest rank found
/// there, in the order of `tiles`.
pub open spec fn relevant_tiles(tiles: Seq<TileView>, cells: Seq<Point>) -> Seq<TileView> {
    tiles_under(tiles, cells).filter(of_rank(top_rank(tiles_under(tiles, cells))))
}

/// No tile outranks `top_rank`, and where there is a tile one of them has that rank.
pub proof fn lemma_top_rank(tiles: Seq<TileView>)
    ensures
        forall|i: int|
            0 <= i < tiles.len() ==> (#[trigger] tiles[i]).tiletype.priority() <= top_rank(tiles),
        0 <= top_rank(tiles) <= 4,
        tiles.len() > 0 ==> exists|i: int|
            0 <= i < tiles.len() && (#[trigger] tiles[i]).tiletype.priority() == top_rank(tiles),
    decreases tiles.len(),
{
    if tiles.len() > 0 {
        let front = tiles.drop_last();
        lemma_top_rank(front);
        assert forall|i: int| 0 <= i < tiles.len() implies (
        #[trigger] tiles[i]).tiletype.priority() <= top_rank(tiles) by {
            if i < front.len() {
                assert(tiles[i] == front[i]);
            }
        }
        if tiles.last().tiletype.priority() > top_rank(front) || front.len() == 0 {
            assert(tiles[tiles.len() - 1].tiletype.priority() == top_rank(tiles));
        } else {
            let k = choose|k: int|
                0 <= k < front.len() && (#[trigger] front[k]).tiletype.priority() == top_rank(
                    front,
                );
            assert(tiles[k] == front[k]);
        }
    }
}

/// Every relevant tile lies under the shape, and all of them have one rank.
pub proof fn lemma_relevant_tiles(tiles: Seq<TileView>, cells: Seq<Point>)
    ensures
        forall|i: int|
            0 <= i < relevant_tiles(tiles, cells).len() ==> {
                &&& cells.contains((#[trigger] relevant_tiles(tiles, cells)[i]).pos@)
                &&& tiles.contains(relevant_tiles(tiles, cells)[i])
                &&& relevant_tiles(tiles, cells)[i].tiletype.priority() == top_rank(
                    tiles_under(tiles, cells),
                )
            },
{
    let under = tiles_under(tiles, cells);
    let rel = relevant_tiles(tiles, cells);
    crate::seqs::lemma_filter_members(tiles, lies_under(cells));
    crate::seqs::lemma_filter_members(under, of_rank(top_rank(under)));
    assert forall|i: int| 0 <= i < rel.len() implies {
        &&& cells.contains((#[trigger] rel[i]).pos@)
        &&& tiles.contains(rel[i])
        &&& rel[i].tiletype.priority() == top_rank(under)
    } by {
        assert(rel.contains(rel[i]));
        assert(under.contains(rel[i]));
    }
}

/// The tiles that act on `object`: of the tiles under it, those of the highest rank found
/// there, in the order of `tiles`.
pub fn relevant_tiles_of(tiles: &Vec<Tile>, object: &mut BlockObject) -> (rel: Vec<Tile>)
    requires
        old(object).wf(),
    ensures
        tile_views(rel@) == relevant_tiles(tile_views(tiles@), old(object).cells()),
        final(object)@ == old(object)@,
        final(object).wf(),
{
    let ghost all = tile_views(tiles@);
    let ghost cells = object.cells();
    let mut rel: Vec<Tile> = Vec::new();
    let mut best: u8 = 0;
    let n = tiles.len();
    let mut i: usize = 0;
    proof {
        lemma_filter_start(all, lies_under(cells));
        lemma_filter_none(Seq::<TileView>::empty(), of_rank(0));
        assert(tile_views(rel@) =~= Seq::<TileView>::empty());
    }
    while i < n
        invariant
            i <= n,
            n == tiles.len(),
            all == tile_views(tiles@),
            cells == object.cells(),
            object@ == old(object)@,
            object.wf(),
            best == top_rank(tiles_under(all.take(i as int), cells)),
            tile_views(rel@) == tiles_under(all.take(i as int), cells).filter(of_rank(best as int)),
        decreases n - i,
    {
        let tile = tiles[i];
        let ghost under = tiles_under(all.take(i as int), cells);
        proof {
            lemma_filter_step(all, lies_under(cells), i as int);
            assert(all[i as int] == tile@);
            lemma_top_rank(under);
            assert(under.push(tile@).drop_last() =~= under);
        }
        if object.overlap_tile(tile.get_pos()) {
            let rank = tile.get_type().get_priority();
            if rank > best {
                best = rank;
                rel = Vec::new();
                proof {
                    lemma_filter_none(under, of_rank(rank as int));
                    assert(tile_views(rel@) =~= Seq::<TileView>::empty());
                }
            }
            proof {
                lemma_filter_push(under, tile@, of_rank(best as int));
            }
            if rank == best {
                let ghost kept = rel@;
                rel.push(tile);
                assert(tile_views(rel@) =~= tile_views(kept).push(tile@));
            }
        }
        i += 1;
    }
    assert(all.take(n as int) =~= all);
    rel
}

/// For every object of the list, the tiles that act on it.
pub fn relevant_tiles_of_each(tiles: &Vec<Tile>, active: &mut Vec<BlockObject>) -> (rel: Vec<
    Vec<Tile>,
>)
    requires
        all_wf(old(active)@),
    ensures
        rel.len() == old(active).len(),
        forall|i: int|
            0 <= i < rel.len() ==> tile_views((#[trigger] rel[i])@) == relevant_tiles(
                tile_views(tiles@),
                old(active)[i].cells(),
            ),
        views_of(final(active)@) == views_of(old(active)@),
        all_wf(final(active)@),
{
    let ghost before = views_of(active@);
    let mut rel: Vec<Vec<Tile>> = Vec::new();
    let n = active.len();
    let mut i: usize = 0;
    while i < n
        invariant
            i <= n,
            n == active.len(),
            rel.len() == i,
            before == views_of(old(active)@),
            before.len() == n,
            all_wf(active@),
            forall|k: int| 0 <= k < n ==> (#[trigger] active@[k])@ == before[k],
            forall|k: int|
                0 <= k < i ==> tile_views((#[trigger] rel[k])@) == relevant_tiles(
                    tile_views(tiles@),
                    before[k].cells,
                ),
        decreases n - i,
    {
        assert(active@[i as int]@ == before[i as int]);
        let found = relevant_tiles_of(tiles, &mut active[i]);
        rel.push(found);
        i += 1;
    }
    assert(views_of(active@) =~= before);
    assert forall|k: int| 0 <= k < rel.len() implies tile_views((#[trigger] rel[k])@)
        == relevant_tiles(tile_views(tiles@), old(active)[k].cells()) by {
        assert(before[k] == old(active)@[k]@);
    }
    rel
}

} // verus!
