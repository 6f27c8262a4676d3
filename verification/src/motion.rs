//! Carrying out the moves of a tick, and finding the cells that two objects claim.

use vstd::prelude::*;
use crate::block::{all_wf, views_of, BlockObject, BlockObjectAnimation, BlockObjectView};
use crate::cells::{cells_fit, shift_cells, turn_cells_ccw, turn_cells_cw};
use crate::helpers::{points_of, BoardPos, Direction, MovementType, Point};

verus! {

/// How a translation in direction `d` is shown.
pub open spec fn translation_shown(d: Direction) -> BlockObjectAnimation {
    match d {
        Direction::Right => BlockObjectAnimation::Translation { x: 1, y: 0 },
        Direction::Down => BlockObjectAnimation::Translation { x: 0, y: 1 },
        Direction::Left => BlockObjectAnimation::Translation { x: -1i32, y: 0 },
        Direction::Up => BlockObjectAnimation::Translation { x: 0, y: -1i32 },
    }
}

/// The object after its move. A translation takes it one cell on and marks it as just
/// moved; a rotation turns it a quarter about the pivot; an object without a move rests.
pub open spec fn moved(b: BlockObjectView, mv: MovementType) -> BlockObjectView {
    match mv {
        MovementType::Translation(d) => BlockObjectView {
            cells: shift_cells(b.cells, d.step().x, d.step().y),
            anim: translation_shown(d),
            just_moved: true,
            ..b
        },
        MovementType::Rotation { cw, around } => if cw {
            BlockObjectView {
                cells: turn_cells_cw(b.cells, around@),
                anim: BlockObjectAnimation::Rotation { quarter_turns: -1i32, around },
                ..b
            }
        } else {
            BlockObjectView {
                cells: turn_cells_ccw(b.cells, around@),
                anim: BlockObjectAnimation::Rotation { quarter_turns: 1, around },
                ..b
            }
        },
        MovementType::NoMove => BlockObjectView {
            anim: BlockObjectAnimation::Translation { x: 0, y: 0 },
            ..b
        },
    }
}

/// Every object after its move, in the order of the list.
pub open spec fn all_moved(objects: Seq<BlockObjectView>, moves: Seq<MovementType>) -> Seq<
    BlockObjectView,
> {
    Seq::new(objects.len(), |i: int| moved(objects[i], moves[i]))
}

/// Every cell that any object reaches by its move can be held in a `BoardPos`.
pub open spec fn moves_fit(objects: Seq<BlockObjectView>, moves: Seq<MovementType>) -> bool {
    forall|i: int|
        0 <= i < objects.len() ==> cells_fit((#[trigger] moved(objects[i], moves[i])).cells)
}

/// An object's claim to a cell.
pub struct Claim {
    pub cell: Point,
    pub owner: int,
}

/// The claims of one object to the cells of a shape, in the order of the cells.
pub open spec fn claims_of(cells: Seq<Point>, owner: int) -> Seq<Claim> {
    cells.map_values(|p: Point| Claim { cell: p, owner })
}

/// The claims of the first `upto` objects, in the order in which a tick makes them: for
/// each object in turn, the cells it leaves and then the cells it reaches.
pub open spec fn all_claims(objects: Seq<BlockObjectView>, moves: Seq<MovementType>, upto: int) -> Seq<
    Claim,
>
    decreases upto,
{
    if upto <= 0 {
        Seq::empty()
    } else {
        all_claims(objects, moves, upto - 1) + claims_of(objects[upto - 1].cells, upto - 1)
            + claims_of(moved(objects[upto - 1], moves[upto - 1]).cells, upto - 1)
    }
}

/// The owner of the last claim to `p`, if there is a claim to it.
pub open spec fn latest_owner(claims: Seq<Claim>, p: Point) -> Option<int>
    decreases claims.len(),
{
    if claims.len() == 0 {
        None
    } else if claims.last().cell == p {
        Some(claims.last().owner)
    } else {
        latest_owner(claims.drop_last(), p)
    }
}

/// The cells on which objects collide: for each claim, in order, its cell if the last
/// claim to that cell before it was made by another object.
pub open spec fn collisions(claims: Seq<Claim>) -> Seq<Point>
    decreases claims.len(),
{
    if claims.len() == 0 {
        Seq::empty()
    } else {
        let rest = collisions(claims.drop_last());
        match latest_owner(claims.drop_last(), claims.last().cell) {
            Some(o) => if o != claims.last().owner {
                rest.push(claims.last().cell)
            } else {
                rest
            },
            None => rest,
        }
    }
}

/// A claim as the code holds it.
pub open spec fn claim_view(c: (BoardPos, usize)) -> Claim {
    Claim { cell: c.0@, owner: c.1 as int }
}

/// The claims as the code holds them.
pub open spec fn claims_view(claims: Seq<(BoardPos, usize)>) -> Seq<Claim> {
    claims.map_values(|c: (BoardPos, usize)| claim_view(c))
}

/// The owner of the last claim to `p`, if there is a claim to it.
fn find_latest_owner(claims: &Vec<(BoardPos, usize)>, p: BoardPos) -> (r: Option<usize>)
    ensures
        r matches Some(o) ==> latest_owner(claims_view(claims@), p@) == Some(o as int),
        r is None ==> latest_owner(claims_view(claims@), p@) is None,
{
    let ghost all = claims_view(claims@);
    let mut i: usize = claims.len();
    assert(all.take(i as int) =~= all);
    while i > 0
        invariant
            i <= claims.len(),
            all == claims_view(claims@),
            latest_owner(all, p@) == latest_owner(all.take(i as int), p@),
        decreases i,
    {
        i -= 1;
        let c = claims[i];
        proof {
            assert(all.take(i + 1).drop_last() =~= all.take(i as int));
            assert(all.take(i + 1).last() == claim_view(c));
        }
        if c.0 == p {
            return Some(c.1);
        }
    }
    None
}

/// Adds the claims of `owner` to the cells of `object`, and to `hits` every cell that
/// another object claimed last.
fn claim_cells(
    object: &BlockObject,
    owner: usize,
    claims: &mut Vec<(BoardPos, usize)>,
    hits: &mut Vec<BoardPos>,
)
    requires
        points_of(old(hits)@) == collisions(claims_view(old(claims)@)),
    ensures
        claims_view(final(claims)@) == claims_view(old(claims)@) + claims_of(
            object.cells(),
            owner as int,
        ),
        points_of(final(hits)@) == collisions(claims_view(final(claims)@)),
{
    let ghost before = claims_view(claims@);
    let ghost cells = object.cells();
    let n = object.blocks.len();
    let mut i: usize = 0;
    assert(claims_view(claims@) =~= before + claims_of(cells.take(0), owner as int));
    while i < n
        invariant
            i <= n,
            n == object.blocks.len(),
            cells == object.cells(),
            claims_view(claims@) == before + claims_of(cells.take(i as int), owner as int),
            points_of(hits@) == collisions(claims_view(claims@)),
        decreases n - i,
    {
        let p = object.blocks[i].pos;
        let ghost made = claims@;
        let ghost found = hits@;
        let last = find_latest_owner(claims, p);
        match last {
            Some(o) => {
                if o != owner {
                    hits.push(p);
                }
            },
            None => {},
        }
        claims.push((p, owner));
        proof {
            assert(cells[i as int] == p@);
            assert(claims_view(claims@) =~= claims_view(made).push(claim_view((p, owner))));
            assert(claims_view(claims@).drop_last() =~= claims_view(made));
            assert(claims_view(claims@) =~= before + claims_of(cells.take(i + 1), owner as int));
            if last matches Some(o) && o != owner {
                assert(points_of(hits@) =~= points_of(found).push(p@));
            }
        }
        i += 1;
    }
    assert(cells.take(n as int) =~= cells);
}

/// Carries out the move of one object.
pub fn move_object(object: &mut BlockObject, mv: MovementType)
    requires
        old(object).wf(),
        cells_fit(moved(old(object)@, mv).cells),
    ensures
        final(object)@ == moved(old(object)@, mv),
        final(object).wf(),
{
    match mv {
        MovementType::Translation(d) => {
            let (dx, dy) = d.delta();
            object.translate(dx, dy);
            object.anim = BlockObjectAnimation::Translation { x: dx, y: dy };
            object.just_moved = true;
        },
        MovementType::Rotation { cw, around } => {
            if cw {
                object.rotate_cw(around);
                object.anim = BlockObjectAnimation::Rotation { quarter_turns: -1, around };
            } else {
                object.rotate_ccw(around);
                object.anim = BlockObjectAnimation::Rotation { quarter_turns: 1, around };
            }
        },
        MovementType::NoMove => {
            object.anim = BlockObjectAnimation::Translation { x: 0, y: 0 };
        },
    }
}

/// Carries out the move of every object, in the order of the list, and gives the cells on
/// which objects collide: every cell that an object holds before or after its own move
/// while the last to hold it, before or after its move, was another object.
pub fn move_all(active: &mut Vec<BlockObject>, moves: &Vec<MovementType>) -> (hits: Vec<BoardPos>)
    requires
        moves.len() == old(active).len(),
        all_wf(old(active)@),
        moves_fit(views_of(old(active)@), moves@),
    ensures
        views_of(final(active)@) == all_moved(views_of(old(active)@), moves@),
        points_of(hits@) == collisions(
            all_claims(views_of(old(active)@), moves@, old(active).len() as int),
        ),
        all_wf(final(active)@),
{
    let ghost before = views_of(active@);
    let mut claims: Vec<(BoardPos, usize)> = Vec::new();
    let mut hits: Vec<BoardPos> = Vec::new();
    let n = active.len();
    let mut i: usize = 0;
    proof {
        assert(claims_view(claims@) =~= all_claims(before, moves@, 0));
        assert(points_of(hits@) =~= collisions(claims_view(claims@)));
    }
    while i < n
        invariant
            i <= n,
            n == active.len(),
            n == moves.len(),
            before.len() == n,
            moves_fit(before, moves@),
            all_wf(active@),
            forall|k: int| 0 <= k < i ==> (#[trigger] active@[k])@ == moved(before[k], moves@[k]),
            forall|k: int| i <= k < n ==> (#[trigger] active@[k])@ == before[k],
            claims_view(claims@) == all_claims(before, moves@, i as int),
            points_of(hits@) == collisions(claims_view(claims@)),
        decreases n - i,
    {
        proof {
            assert(active@[i as int]@ == before[i as int]);
            assert(cells_fit(moved(before[i as int], moves@[i as int]).cells));
        }
        claim_cells(&active[i], i, &mut claims, &mut hits);
        move_object(&mut active[i], moves[i]);
        claim_cells(&active[i], i, &mut claims, &mut hits);
        i += 1;
    }
    assert(views_of(active@) =~= all_moved(before, moves@));
    hits
}

} // verus!
