//! Carrying out what was resolved: parting the objects that split, and naming the move
//! of every object and every part.

use vstd::prelude::*;
use crate::block::{
    all_solid, all_wf, fresh_view, views_of, BlockObject, BlockObjectMode, BlockObjectView,
};
use crate::cells::{above_seam, below_seam, left_of_seam, right_of_seam};
use crate::helpers::{Direction, MovementType, Point};
use crate::relevance::{lemma_relevant_tiles, relevant_tiles};
use crate::resolve::{
    directions_pushed, pushed_toward, resolution, resolve, sides_agree_hori, sides_agree_vert,
    Resolution,
};
use crate::seqs::lemma_filter_members;
use crate::tile::{tile_views, Tile, TileView};

verus! {

/// The resolution parts the object.
pub open spec fn splits(r: Resolution) -> bool {
    r is SplitVert || r is SplitHori
}

/// What stays of an object under its old identity: the left or upper part of one that
/// splits, the whole of any other.
pub open spec fn staying_part(b: BlockObjectView, r: Resolution) -> BlockObjectView {
    match r {
        Resolution::SplitVert { seam } => BlockObjectView {
            cells: left_of_seam(b.cells, seam as int),
            ..b
        },
        Resolution::SplitHori { seam } => BlockObjectView {
            cells: above_seam(b.cells, seam as int),
            ..b
        },
        _ => b,
    }
}

/// The cells that leave an object that splits: its right or lower part.
pub open spec fn leaving_cells(b: BlockObjectView, r: Resolution) -> Seq<Point> {
    match r {
        Resolution::SplitVert { seam } => right_of_seam(b.cells, seam as int),
        Resolution::SplitHori { seam } => below_seam(b.cells, seam as int),
        _ => Seq::<Point>::empty(),
    }
}

/// The new object that leaves one that splits: its right or lower part, in flight under
/// the identity `id`.
pub open spec fn leaving_part(b: BlockObjectView, r: Resolution, id: int) -> BlockObjectView {
    BlockObjectView { id, ..fresh_view(leaving_cells(b, r), BlockObjectMode::Processing) }
}

/// The move of what stays of an object.
pub open spec fn move_of(r: Resolution) -> MovementType {
    match r {
        Resolution::Whole(m) => m,
        Resolution::SplitVert { .. } => MovementType::Translation(Direction::Left),
        Resolution::SplitHori { .. } => MovementType::Translation(Direction::Up),
        _ => MovementType::NoMove,
    }
}

/// The move of the part that leaves an object.
pub open spec fn move_of_leaving(r: Resolution) -> MovementType {
    match r {
        Resolution::SplitVert { .. } => MovementType::Translation(Direction::Right),
        Resolution::SplitHori { .. } => MovementType::Translation(Direction::Down),
        _ => MovementType::NoMove,
    }
}

/// The parts that leave the objects that split, in the order of the objects. The parts
/// get the identities from `first_id` on, one after the other.
pub open spec fn leavers(objects: Seq<BlockObjectView>, res: Seq<Resolution>, first_id: int) -> Seq<
    BlockObjectView,
>
    decreases objects.len(),
{
    if objects.len() == 0 || res.len() == 0 {
        Seq::empty()
    } else {
        let rest = leavers(objects.drop_last(), res.drop_last(), first_id);
        if splits(res.last()) {
            rest.push(leaving_part(objects.last(), res.last(), first_id + rest.len()))
        } else {
            rest
        }
    }
}

/// The moves of the parts that leave, in the order of the objects.
pub open spec fn leaver_moves(res: Seq<Resolution>) -> Seq<MovementType>
    decreases res.len(),
{
    if res.len() == 0 {
        Seq::empty()
    } else {
        let rest = leaver_moves(res.drop_last());
        if splits(res.last()) {
            rest.push(move_of_leaving(res.last()))
        } else {
            rest
        }
    }
}

/// The objects in flight once the first `k` of them have been dealt with: what stays of
/// each in its old place, and the parts that left behind all of them, with the
/// identities from `first_id` on.
pub open spec fn after_splits(
    objects: Seq<BlockObjectView>,
    res: Seq<Resolution>,
    k: int,
    first_id: int,
) -> Seq<BlockObjectView> {
    Seq::new(
        objects.len(),
        |i: int|
            if i < k {
                staying_part(objects[i], res[i])
            } else {
                objects[i]
            },
    ) + leavers(objects.take(k), res.take(k), first_id)
}

/// The moves of the objects of `after_splits`, in the same order, when all have been
/// dealt with.
pub open spec fn moves_after_splits(res: Seq<Resolution>) -> Seq<MovementType> {
    Seq::new(res.len(), |i: int| move_of(res[i])) + leaver_moves(res)
}

/// The place of the first resolution equal to `kind`; the length of the list if there is none.
pub open spec fn first_of_kind(res: Seq<Resolution>, kind: Resolution) -> int
    decreases res.len(),
{
    if res.len() == 0 {
        0
    } else if res[0] == kind {
        0
    } else {
        1 + first_of_kind(res.drop_first(), kind)
    }
}

/// `first_of_kind` is the place before which no resolution is of the kind and at which,
/// unless it is the end of the list, one is.
pub proof fn lemma_first_of_kind(res: Seq<Resolution>, kind: Resolution, i: int)
    requires
        0 <= i <= res.len(),
        forall|k: int| 0 <= k < i ==> res[k] != kind,
        i < res.len() ==> res[i] == kind,
    ensures
        first_of_kind(res, kind) == i,
    decreases res.len(),
{
    if res.len() > 0 && i > 0 {
        let rest = res.drop_first();
        assert forall|k: int| 0 <= k < i - 1 implies rest[k] != kind by {
            assert(rest[k] == res[k + 1]);
        }
        lemma_first_of_kind(rest, kind, i - 1);
    }
}

/// `first_of_kind` is a place of the list or its length.
pub proof fn lemma_first_of_kind_bounds(res: Seq<Resolution>, kind: Resolution)
    ensures
        0 <= first_of_kind(res, kind) <= res.len(),
        first_of_kind(res, kind) < res.len() ==> res[first_of_kind(res, kind)] == kind,
    decreases res.len(),
{
    if res.len() > 0 && res[0] != kind {
        lemma_first_of_kind_bounds(res.drop_first(), kind);
    }
}

/// As many parts leave as moves are named for them, and no more than there are objects.
pub proof fn lemma_moves_count(objects: Seq<BlockObjectView>, res: Seq<Resolution>, first_id: int)
    requires
        objects.len() == res.len(),
    ensures
        leavers(objects, res, first_id).len() == leaver_moves(res).len(),
        leavers(objects, res, first_id).len() <= objects.len(),
    decreases res.len(),
{
    if res.len() > 0 {
        lemma_moves_count(objects.drop_last(), res.drop_last(), first_id);
    }
}

/// The parts that leave have the identities from `first_id` on, in their order.
pub proof fn lemma_leavers_ids(objects: Seq<BlockObjectView>, res: Seq<Resolution>, first_id: int)
    ensures
        forall|j: int|
            0 <= j < leavers(objects, res, first_id).len() ==> (#[trigger] leavers(
                objects,
                res,
                first_id,
            )[j]).id == first_id + j,
    decreases objects.len(),
{
    if objects.len() > 0 && res.len() > 0 {
        lemma_leavers_ids(objects.drop_last(), res.drop_last(), first_id);
        let rest = leavers(objects.drop_last(), res.drop_last(), first_id);
        let all = leavers(objects, res, first_id);
        assert forall|j: int| 0 <= j < all.len() implies (#[trigger] all[j]).id == first_id + j by {
            if j < rest.len() {
                assert(all[j] == rest[j]);
            }
        }
    }
}

/// The parts that leave a prefix that is one object longer.
pub proof fn lemma_leavers_step(
    objects: Seq<BlockObjectView>,
    res: Seq<Resolution>,
    first_id: int,
    i: int,
)
    requires
        0 <= i < objects.len(),
        objects.len() == res.len(),
    ensures
        leavers(objects.take(i + 1), res.take(i + 1), first_id) == if splits(res[i]) {
            leavers(objects.take(i), res.take(i), first_id).push(
                leaving_part(
                    objects[i],
                    res[i],
                    first_id + leavers(objects.take(i), res.take(i), first_id).len(),
                ),
            )
        } else {
            leavers(objects.take(i), res.take(i), first_id)
        },
        leaver_moves(res.take(i + 1)) == if splits(res[i]) {
            leaver_moves(res.take(i)).push(move_of_leaving(res[i]))
        } else {
            leaver_moves(res.take(i))
        },
        leavers(objects.take(i), res.take(i), first_id).len() == leaver_moves(res.take(i)).len(),
        leavers(objects.take(i), res.take(i), first_id).len() <= i,
    decreases i,
{
    assert(objects.take(i + 1).drop_last() =~= objects.take(i));
    assert(res.take(i + 1).drop_last() =~= res.take(i));
    if i > 0 {
        lemma_leavers_step(objects, res, first_id, i - 1);
    }
}

/// A shape that splits has cells on both sides of its seam, if each of its tiles lies
/// under one of its cells.
pub proof fn lemma_split_parts_solid(rel: Seq<TileView>, cells: Seq<Point>)
    requires
        forall|i: int| 0 <= i < rel.len() ==> cells.contains((#[trigger] rel[i]).pos@),
    ensures
        resolution(rel, cells) matches Resolution::SplitVert { seam } ==> left_of_seam(
            cells,
            seam as int,
        ).len() > 0 && right_of_seam(cells, seam as int).len() > 0,
        resolution(rel, cells) matches Resolution::SplitHori { seam } ==> above_seam(
            cells,
            seam as int,
        ).len() > 0 && below_seam(cells, seam as int).len() > 0,
{
    match resolution(rel, cells) {
        Resolution::SplitVert { seam } => {
            assert(directions_pushed(rel) >= 2);
            assert(sides_agree_vert(rel, seam as int));
            assert(pushed_toward(rel, Direction::Left) && pushed_toward(rel, Direction::Right))
                by {
                if pushed_toward(rel, Direction::Up) {
                    let i = choose|i: int|
                        0 <= i < rel.len() && (#[trigger] rel[i]).tiletype.pushes() && rel[i].dir
                            == Direction::Up;
                }
                if pushed_toward(rel, Direction::Down) {
                    let i = choose|i: int|
                        0 <= i < rel.len() && (#[trigger] rel[i]).tiletype.pushes() && rel[i].dir
                            == Direction::Down;
                }
            }
            let a = choose|i: int|
                0 <= i < rel.len() && (#[trigger] rel[i]).tiletype.pushes() && rel[i].dir
                    == Direction::Left;
            let b = choose|i: int|
                0 <= i < rel.len() && (#[trigger] rel[i]).tiletype.pushes() && rel[i].dir
                    == Direction::Right;
            lemma_filter_members(cells, |p: Point| p.x <= seam as int);
            lemma_filter_members(cells, |p: Point| p.x > seam as int);
            assert(left_of_seam(cells, seam as int).contains(rel[a].pos@));
            assert(right_of_seam(cells, seam as int).contains(rel[b].pos@));
        },
        Resolution::SplitHori { seam } => {
            assert(directions_pushed(rel) >= 2);
            assert(sides_agree_hori(rel, seam as int));
            assert(pushed_toward(rel, Direction::Up) && pushed_toward(rel, Direction::Down)) by {
                if pushed_toward(rel, Direction::Left) {
                    let i = choose|i: int|
                        0 <= i < rel.len() && (#[trigger] rel[i]).tiletype.pushes() && rel[i].dir
                            == Direction::Left;
                }
                if pushed_toward(rel, Direction::Right) {
                    let i = choose|i: int|
                        0 <= i < rel.len() && (#[trigger] rel[i]).tiletype.pushes() && rel[i].dir
                            == Direction::Right;
                }
            }
            let a = choose|i: int|
                0 <= i < rel.len() && (#[trigger] rel[i]).tiletype.pushes() && rel[i].dir
                    == Direction::Up;
            let b = choose|i: int|
                0 <= i < rel.len() && (#[trigger] rel[i]).tiletype.pushes() && rel[i].dir
                    == Direction::Down;
            lemma_filter_members(cells, |p: Point| p.y <= seam as int);
            lemma_filter_members(cells, |p: Point| p.y > seam as int);
            assert(above_seam(cells, seam as int).contains(rel[a].pos@));
            assert(below_seam(cells, seam as int).contains(rel[b].pos@));
        },
        _ => {},
    }
}

/// What one tick does with each object of the list, given the tiles that act on each.
pub fn resolve_each(rel: &Vec<Vec<Tile>>, active: &Vec<BlockObject>) -> (res: Vec<Resolution>)
    requires
        rel.len() == active.len(),
    ensures
        res.len() == active.len(),
        forall|i: int|
            0 <= i < res.len() ==> #[trigger] res[i] == resolution(
                tile_views(rel[i]@),
                active[i].cells(),
            ),
{
    let mut res: Vec<Resolution> = Vec::new();
    let n = active.len();
    let mut i: usize = 0;
    while i < n
        invariant
            i <= n,
            n == active.len(),
            n == rel.len(),
            res.len() == i,
            forall|k: int|
                0 <= k < i ==> #[trigger] res[k] == resolution(
                    tile_views(rel[k]@),
                    active[k].cells(),
                ),
        decreases n - i,
    {
        let r = resolve(&rel[i], &active[i]);
        res.push(r);
        i += 1;
    }
    res
}

/// The place of the first resolution that is a conflict of the given kind, if there is one.
pub fn find_conflict(res: &Vec<Resolution>, kind: Resolution) -> (r: Option<usize>)
    ensures
        r matches Some(i) ==> i < res.len() && first_of_kind(res@, kind) == i,
        r is None ==> first_of_kind(res@, kind) == res.len(),
{
    let n = res.len();
    let mut i: usize = 0;
    while i < n
        invariant
            i <= n,
            n == res.len(),
            forall|k: int| 0 <= k < i ==> res@[k] != kind,
        decreases n - i,
    {
        if res[i] == kind {
            proof {
                lemma_first_of_kind(res@, kind, i as int);
            }
            return Some(i);
        }
        i += 1;
    }
    proof {
        lemma_first_of_kind(res@, kind, n as int);
    }
    None
}

/// Parts every object that splits, in the order of the list, and puts each part that
/// leaves behind the objects in flight. Stops at the first object whose tiles push it in
/// several directions without a clean seam, and gives its place; otherwise gives the move
/// of every object now in flight.
pub fn apply_splits(active: &mut Vec<BlockObject>, res: &Vec<Resolution>, next_id: &mut i32) -> (r:
    Result<Vec<MovementType>, usize>)
    requires
        res.len() == old(active).len(),
        all_wf(old(active)@),
        *old(next_id) + res.len() <= i32::MAX,
    ensures
        views_of(final(active)@) == after_splits(
            views_of(old(active)@),
            res@,
            first_of_kind(res@, Resolution::DirectionConflict),
            *old(next_id) as int,
        ),
        *final(next_id) == *old(next_id) + leavers(
            views_of(old(active)@).take(first_of_kind(res@, Resolution::DirectionConflict)),
            res@.take(first_of_kind(res@, Resolution::DirectionConflict)),
            *old(next_id) as int,
        ).len(),
        all_wf(final(active)@),
        r matches Err(k) ==> k < res.len() && k == first_of_kind(
            res@,
            Resolution::DirectionConflict,
        ),
        r matches Ok(moves) ==> first_of_kind(res@, Resolution::DirectionConflict) == res.len()
            && moves@ == moves_after_splits(res@),
{
    let ghost before = views_of(active@);
    let ghost first = *next_id as int;
    let n = res.len();
    let mut moves: Vec<MovementType> = Vec::new();
    let mut late: Vec<MovementType> = Vec::new();
    let mut i: usize = 0;
    proof {
        assert(before.take(0) =~= Seq::<BlockObjectView>::empty());
        assert(views_of(active@).skip(n as int) =~= Seq::<BlockObjectView>::empty());
    }
    while i < n
        invariant
            i <= n,
            n == res.len(),
            before.len() == n,
            before == views_of(old(active)@),
            active.len() >= n,
            all_wf(active@),
            moves.len() == i,
            forall|k: int| 0 <= k < i ==> res@[k] != Resolution::DirectionConflict,
            forall|k: int| 0 <= k < i ==> #[trigger] moves@[k] == move_of(res@[k]),
            late@ == leaver_moves(res@.take(i as int)),
            forall|k: int|
                0 <= k < i ==> (#[trigger] active@[k])@ == staying_part(before[k], res@[k]),
            forall|k: int| i <= k < n ==> (#[trigger] active@[k])@ == before[k],
            first == *old(next_id),
            first + n <= i32::MAX,
            views_of(active@).skip(n as int) == leavers(
                before.take(i as int),
                res@.take(i as int),
                first,
            ),
            *next_id == first + leavers(before.take(i as int), res@.take(i as int), first).len(),
        decreases n - i,
    {
        let ghost flying = active@;
        proof {
            lemma_leavers_step(before, res@, first, i as int);
            assert(active@[i as int]@ == before[i as int]);
        }
        match res[i] {
            Resolution::DirectionConflict => {
                proof {
                    lemma_first_of_kind(res@, Resolution::DirectionConflict, i as int);
                    assert(views_of(active@) =~= after_splits(before, res@, i as int, first));
                }
                return Err(i);
            },
            Resolution::SplitVert { seam } => {
                let mut other = active[i].split_vert_seam(seam);
                other.id = *next_id;
                *next_id = *next_id + 1;
                active.push(other);
                moves.push(MovementType::Translation(Direction::Left));
                late.push(MovementType::Translation(Direction::Right));
                assert(views_of(active@).skip(n as int) =~= views_of(flying).skip(n as int).push(
                    other@,
                ));
            },
            Resolution::SplitHori { seam } => {
                let mut other = active[i].split_hori_seam(seam);
                other.id = *next_id;
                *next_id = *next_id + 1;
                active.push(other);
                moves.push(MovementType::Translation(Direction::Up));
                late.push(MovementType::Translation(Direction::Down));
                assert(views_of(active@).skip(n as int) =~= views_of(flying).skip(n as int).push(
                    other@,
                ));
            },
            Resolution::Whole(m) => {
                moves.push(m);
                assert(views_of(active@).skip(n as int) =~= views_of(flying).skip(n as int));
            },
            Resolution::RotateConflict => {
                moves.push(MovementType::NoMove);
                assert(views_of(active@).skip(n as int) =~= views_of(flying).skip(n as int));
            },
        }
        i += 1;
    }
    proof {
        lemma_first_of_kind(res@, Resolution::DirectionConflict, n as int);
        assert(before.take(n as int) =~= before);
        assert(res@.take(n as int) =~= res@);
        assert(views_of(active@) =~= after_splits(before, res@, n as int, first)) by {
            assert(views_of(active@) =~= views_of(active@).take(n as int) + views_of(
                active@,
            ).skip(n as int));
        }
    }
    moves.append(&mut late);
    assert(moves@ =~= moves_after_splits(res@));
    Ok(moves)
}

/// Objects that had cells before they were parted have cells afterwards, and so has every
/// part that left, if every resolution came from the tiles that act on its object.
pub proof fn lemma_splits_keep_solid(
    objects: Seq<BlockObjectView>,
    tiles: Seq<TileView>,
    res: Seq<Resolution>,
    k: int,
    first_id: int,
)
    requires
        all_solid(objects),
        res.len() == objects.len(),
        0 <= k <= res.len(),
        forall|i: int|
            0 <= i < res.len() ==> #[trigger] res[i] == resolution(
                relevant_tiles(tiles, objects[i].cells),
                objects[i].cells,
            ),
    ensures
        all_solid(after_splits(objects, res, k, first_id)),
        after_splits(objects, res, k, first_id).len() >= objects.len(),
    decreases k,
{
    let now = after_splits(objects, res, k, first_id);
    if k > 0 {
        lemma_splits_keep_solid(objects, tiles, res, k - 1, first_id);
        lemma_leavers_step(objects, res, first_id, k - 1);
        let then = after_splits(objects, res, k - 1, first_id);
        lemma_relevant_tiles(tiles, objects[k - 1].cells);
        lemma_split_parts_solid(
            relevant_tiles(tiles, objects[k - 1].cells),
            objects[k - 1].cells,
        );
        assert forall|i: int| 0 <= i < now.len() implies (#[trigger] now[i]).cells.len() > 0 by {
            if i < objects.len() {
                if i != k - 1 {
                    assert(now[i] == then[i]);
                }
            } else if i < then.len() {
                assert(now[i] == then[i]);
            }
        }
    } else {
        assert(objects.take(0) =~= Seq::<BlockObjectView>::empty());
        assert(now =~= objects);
    }
}

} // verus!
