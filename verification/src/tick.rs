//! One tick of a run, as a function from the board before it to the board after it and
//! the outcome.

use vstd::prelude::*;
use crate::block::{all_solid, BlockObjectView};
use crate::board::{ids_fresh, objects_apart, BoardView};
use crate::cells::cells_fit;
use crate::flips::after_flips;
use crate::helpers::{points_of, MovementType, Point, SimulationError};
use crate::merge::{
    after_merging, boxes_of, groups_merging, lemma_after_merging, lemma_group_cells,
    lemma_merged_groups, lemma_merging_keeps_solid, merged_groups, merged_object,
    moves_after_merging, surviving_moves, survivors,
};
use crate::groups::leaders_of;
use crate::motion::{all_claims, all_moved, collisions, moved, moves_fit};
use crate::output::{
    after_intake, intake, lemma_intake_keeps_slots, same_slots, stays, Intake,
};
use crate::relevance::{lemma_relevant_tiles, relevant_tiles};
use crate::resolve::{resolution, Resolution};
use crate::seqs::lemma_filter_members;
use crate::spawn::{
    after_spawn, lemma_spawned, outputs_filled, spawned_copy, spawned_from, to_after_spawn,
    to_rested,
};
use crate::split::{
    after_splits, first_of_kind, leaver_moves, leavers, lemma_first_of_kind_bounds,
    lemma_leavers_ids, lemma_leavers_step, lemma_moves_count, lemma_splits_keep_solid, move_of,
    moves_after_splits,
};
use crate::text::decimal;
use crate::tile::{tile_positions, TileView};

verus! {

/// How a tick ends.
pub enum Outcome {
    /// Every output was filled when the tick began: the run is won, and nothing changed.
    Won,
    /// The tick was carried out and the run goes on.
    Continues,
    /// The tick failed: the run is over.
    Failed { message: Seq<char>, locations: Seq<Point> },
}

/// The outcome that the result of a tick stands for.
pub open spec fn outcome_of(r: Result<bool, SimulationError>) -> Outcome {
    match r {
        Ok(won) => if won {
            Outcome::Won
        } else {
            Outcome::Continues
        },
        Err(e) => Outcome::Failed {
            message: e.message@,
            locations: points_of(e.relevant_locations@),
        },
    }
}

/// The message of a tick in which an object would be turned about more than one pivot.
pub open spec fn rotate_conflict_message() -> Seq<char> {
    "Attempted to rotate block from multiple pivots"@
}

/// The message of a tick in which an object would be pushed in several directions.
pub open spec fn direction_conflict_message() -> Seq<char> {
    "Attempted to move block in multiple directions"@
}

/// The message of a tick in which objects collide.
pub open spec fn collision_message() -> Seq<char> {
    "Collision occured"@
}

/// The message of a tick in which an output that expected `expected` objects in all is
/// offered one more.
pub open spec fn overflow_message(expected: int) -> Seq<char> {
    "Too many objects in one output (expected "@ + decimal(expected) + ")"@
}

/// The message for a board that has grown beyond the coordinates that a tick can handle.
pub open spec fn range_message() -> Seq<char> {
    "Board out of range"@
}

/// The largest coordinate, in either sign, with which every move of a tick stays within
/// the numbers that a position can hold.
pub const COORD_LIMIT: i32 = 0x2000_0000;

/// Both coordinates are at most `COORD_LIMIT` in size.
pub open spec fn near(p: Point) -> bool {
    -COORD_LIMIT <= p.x <= COORD_LIMIT && -COORD_LIMIT <= p.y <= COORD_LIMIT
}

/// Every cell is near.
pub open spec fn cells_near(cells: Seq<Point>) -> bool {
    forall|i: int| 0 <= i < cells.len() ==> near(#[trigger] cells[i])
}

/// Every cell of every object is near.
pub open spec fn objects_near(objects: Seq<BlockObjectView>) -> bool {
    forall|i: int| 0 <= i < objects.len() ==> cells_near((#[trigger] objects[i]).cells)
}

/// Every tile is near.
pub open spec fn tiles_near(tiles: Seq<TileView>) -> bool {
    forall|i: int| 0 <= i < tiles.len() ==> near((#[trigger] tiles[i]).pos@)
}

/// The board is small enough for a tick: every tile and every cell is near, the count of
/// ticks can grow by one, and there are identities left for every object that the tick
/// can bring forth.
pub open spec fn in_range(b: BoardView) -> bool {
    &&& tiles_near(b.tiles)
    &&& objects_near(b.placed)
    &&& objects_near(b.active)
    &&& b.game_ticks < i32::MAX
    &&& b.next_id + 3 * b.active.len() + 4 * b.placed.len() <= i32::MAX
}

/// Inputs send copies in every second tick, beginning with the first.
pub open spec fn spawning(b: BoardView) -> bool {
    b.game_ticks % 2 == 0
}

/// The placed objects after the inputs have sent their copies.
pub open spec fn placed_after_spawn(b: BoardView) -> Seq<BlockObjectView> {
    if spawning(b) {
        b.placed.map_values(to_after_spawn())
    } else {
        b.placed
    }
}

/// The objects in flight once the inputs have sent their copies.
pub open spec fn flying(b: BoardView) -> Seq<BlockObjectView> {
    if spawning(b) {
        b.active + spawned_from(b.placed, b.next_id)
    } else {
        b.active
    }
}

/// The next free identity once the inputs have sent their copies.
pub open spec fn ids_after_spawn(b: BoardView) -> int {
    if spawning(b) {
        b.next_id + spawned_from(b.placed, b.next_id).len()
    } else {
        b.next_id
    }
}

/// For every object, the tiles that act on it.
pub open spec fn relevant_lists(tiles: Seq<TileView>, objects: Seq<BlockObjectView>) -> Seq<
    Seq<TileView>,
> {
    Seq::new(objects.len(), |i: int| relevant_tiles(tiles, objects[i].cells))
}

/// For every object, what the tick does with it.
pub open spec fn resolutions(tiles: Seq<TileView>, objects: Seq<BlockObjectView>) -> Seq<
    Resolution,
> {
    Seq::new(
        objects.len(),
        |i: int| resolution(relevant_tiles(tiles, objects[i].cells), objects[i].cells),
    )
}

/// For every object in flight, the tiles that act on it in this tick.
pub open spec fn acting(b: BoardView) -> Seq<Seq<TileView>> {
    relevant_lists(b.tiles, flying(b))
}

/// For every object in flight, what this tick does with it.
pub open spec fn resolved(b: BoardView) -> Seq<Resolution> {
    resolutions(b.tiles, flying(b))
}

/// The place of the first object that would be turned about several pivots.
pub open spec fn rotate_conflict(b: BoardView) -> int {
    first_of_kind(resolved(b), Resolution::RotateConflict)
}

/// The place of the first object that would be pushed in several directions.
pub open spec fn direction_conflict(b: BoardView) -> int {
    first_of_kind(resolved(b), Resolution::DirectionConflict)
}

/// The objects in flight after the splits, up to the first conflict of directions.
pub open spec fn parted(b: BoardView) -> Seq<BlockObjectView> {
    after_splits(flying(b), resolved(b), direction_conflict(b), ids_after_spawn(b))
}

/// The next free identity after the splits.
pub open spec fn ids_after_splits(b: BoardView) -> int {
    ids_after_spawn(b) + leavers(
        flying(b).take(direction_conflict(b)),
        resolved(b).take(direction_conflict(b)),
        ids_after_spawn(b),
    ).len()
}

/// The objects in flight after the splits, none marked as just moved.
pub open spec fn rested_all(b: BoardView) -> Seq<BlockObjectView> {
    parted(b).map_values(to_rested())
}

/// The moves of the objects of `rested_all`.
pub open spec fn parted_moves(b: BoardView) -> Seq<MovementType> {
    moves_after_splits(resolved(b))
}

/// The objects in flight after merging.
pub open spec fn merged(b: BoardView) -> Seq<BlockObjectView> {
    after_merging(rested_all(b), parted_moves(b), ids_after_splits(b))
}

/// The next free identity after merging.
pub open spec fn ids_after_merging(b: BoardView) -> int {
    ids_after_splits(b) + groups_merging(rested_all(b), parted_moves(b))
}

/// The moves of the objects of `merged`.
pub open spec fn merged_moves(b: BoardView) -> Seq<MovementType> {
    moves_after_merging(rested_all(b), parted_moves(b))
}

/// The objects in flight after their moves.
pub open spec fn arrived(b: BoardView) -> Seq<BlockObjectView> {
    all_moved(merged(b), merged_moves(b))
}

/// The cells on which objects collide in this tick.
pub open spec fn hits(b: BoardView) -> Seq<Point> {
    collisions(all_claims(merged(b), merged_moves(b), merged(b).len() as int))
}

/// The tiles after the tick.
pub open spec fn flipped_tiles(b: BoardView) -> Seq<TileView> {
    after_flips(b.tiles, acting(b))
}

/// What the outputs take in at the end of the tick.
pub open spec fn taking(b: BoardView) -> Intake {
    intake(placed_after_spawn(b), arrived(b), arrived(b).len() as int)
}

/// The board after one tick.
///
/// A tick that finds every output filled changes nothing. Otherwise the inputs send
/// their copies, in every second tick. A conflict ends the tick where it is found, with
/// the splits made so far. Without a conflict all objects are parted, merged and moved,
/// and the alternating tiles that acted turn round, whether or not objects collide.
/// Without a collision the outputs take in what fills them; if none is overfull the
/// objects taken in leave the board and the tick is counted. Every copy, every part that
/// leaves an object and every merged object gets the next free identity.
pub open spec fn board_after_tick(b: BoardView) -> BoardView {
    if outputs_filled(b.placed) {
        b
    } else if rotate_conflict(b) < flying(b).len() {
        BoardView {
            placed: placed_after_spawn(b),
            active: flying(b),
            next_id: ids_after_spawn(b),
            ..b
        }
    } else if direction_conflict(b) < flying(b).len() {
        BoardView {
            placed: placed_after_spawn(b),
            active: parted(b),
            next_id: ids_after_splits(b),
            ..b
        }
    } else if hits(b).len() > 0 {
        BoardView {
            tiles: flipped_tiles(b),
            placed: placed_after_spawn(b),
            active: arrived(b),
            next_id: ids_after_merging(b),
            ..b
        }
    } else if taking(b).overfull is Some {
        BoardView {
            tiles: flipped_tiles(b),
            placed: taking(b).placed,
            active: arrived(b),
            next_id: ids_after_merging(b),
            ..b
        }
    } else {
        BoardView {
            tiles: flipped_tiles(b),
            placed: taking(b).placed,
            active: after_intake(placed_after_spawn(b), arrived(b)),
            next_id: ids_after_merging(b),
            game_ticks: b.game_ticks + 1,
            ..b
        }
    }
}

/// How one tick ends.
///
/// Won, if every output is filled when it begins. Failed, with the positions of the
/// tiles that act on the object, for the first object that several tiles would turn; if
/// there is none, for the first object that is pushed several ways without a clean seam.
/// Failed, with the cells, if objects collide. Failed, with the cells of the output, if
/// an output is offered more than it expects.
pub open spec fn outcome_of_tick(b: BoardView) -> Outcome {
    if outputs_filled(b.placed) {
        Outcome::Won
    } else if rotate_conflict(b) < flying(b).len() {
        Outcome::Failed {
            message: rotate_conflict_message(),
            locations: points_of(tile_positions(acting(b)[rotate_conflict(b)])),
        }
    } else if direction_conflict(b) < flying(b).len() {
        Outcome::Failed {
            message: direction_conflict_message(),
            locations: points_of(tile_positions(acting(b)[direction_conflict(b)])),
        }
    } else if hits(b).len() > 0 {
        Outcome::Failed { message: collision_message(), locations: hits(b) }
    } else if taking(b).overfull is Some {
        Outcome::Failed {
            message: overflow_message(taking(b).placed[taking(b).overfull->0].start_counter),
            locations: taking(b).placed[taking(b).overfull->0].cells,
        }
    } else {
        Outcome::Continues
    }
}

/// The board when a tick begins: the time of one tick is taken off the timer.
pub open spec fn tick_begun(b: BoardView) -> BoardView {
    BoardView { animation_timer: b.animation_timer - b.animation_duration, ..b }
}

/// The board after `steps` ticks, or after fewer if one of them ends the run, with the
/// time of every tick that began taken off the timer.
pub open spec fn board_after_ticks(b: BoardView, steps: nat) -> BoardView
    decreases steps,
{
    if steps == 0 {
        b
    } else if !in_range(tick_begun(b)) {
        tick_begun(b)
    } else if outcome_of_tick(tick_begun(b)) is Continues {
        board_after_ticks(board_after_tick(tick_begun(b)), (steps - 1) as nat)
    } else {
        board_after_tick(tick_begun(b))
    }
}

/// How `steps` ticks end: with the outcome of the first tick that does not let the run
/// go on, if there is one; with a failure before the first tick that finds the board out
/// of range.
pub open spec fn outcome_of_ticks(b: BoardView, steps: nat) -> Outcome
    decreases steps,
{
    if steps == 0 {
        Outcome::Continues
    } else if !in_range(tick_begun(b)) {
        Outcome::Failed { message: range_message(), locations: Seq::empty() }
    } else if outcome_of_tick(tick_begun(b)) is Continues {
        outcome_of_ticks(board_after_tick(tick_begun(b)), (steps - 1) as nat)
    } else {
        outcome_of_tick(tick_begun(b))
    }
}

/// The board with `elapsed` nanoseconds more on its timer.
pub open spec fn time_added(b: BoardView, elapsed: int) -> BoardView {
    BoardView { animation_timer: b.animation_timer + elapsed, ..b }
}

/// The number of whole ticks for which the timer holds the time.
pub open spec fn ticks_due(b: BoardView) -> nat {
    (b.animation_timer / b.animation_duration) as nat
}

/// A move that turns has a pivot that is near.
pub open spec fn tame(mv: MovementType) -> bool {
    mv matches MovementType::Rotation { around, .. } ==> near(around@)
}

/// Every move of the list is tame.
pub open spec fn moves_tame(moves: Seq<MovementType>) -> bool {
    forall|i: int| 0 <= i < moves.len() ==> tame(#[trigger] moves[i])
}

/// After the inputs have sent their copies, every object still has cells, the placed
/// objects lie where they lay, and a board that was in range still is.
pub proof fn lemma_spawn_stage(b: BoardView)
    requires
        b.wf(),
    ensures
        all_solid(flying(b)),
        all_solid(placed_after_spawn(b)),
        objects_apart(placed_after_spawn(b)),
        same_slots(b.placed, placed_after_spawn(b)),
        in_range(b) ==> objects_near(flying(b)) && objects_near(placed_after_spawn(b)),
        ids_fresh(flying(b), ids_after_spawn(b)),
        b.next_id <= ids_after_spawn(b) <= b.next_id + b.placed.len(),
        flying(b).len() <= b.active.len() + b.placed.len(),
{
    let sent = spawned_from(b.placed, b.next_id);
    lemma_spawned(b.placed, b.next_id);
    assert forall|i: int| 0 <= i < sent.len() implies (#[trigger] sent[i]).cells.len() > 0 && (
    in_range(b) ==> cells_near(sent[i].cells)) && sent[i].id == b.next_id + i by {
        let k = choose|k: int|
            0 <= k < b.placed.len() && sent[i] == spawned_copy(b.placed[k], b.next_id + i);
        assert(b.placed[k].cells.len() > 0);
    }
    assert forall|i: int| 0 <= i < flying(b).len() implies (#[trigger] flying(b)[i]).cells.len()
        > 0 && (in_range(b) ==> cells_near(flying(b)[i].cells)) && 0 <= flying(b)[i].id
        < ids_after_spawn(b) && (i >= b.active.len() ==> flying(b)[i].id == b.next_id + (i
        - b.active.len())) by {
        if i < b.active.len() {
            assert(flying(b)[i] == b.active[i]);
        } else {
            assert(flying(b)[i] == sent[i - b.active.len()]);
        }
    }
    assert forall|i: int, j: int| 0 <= i < j < flying(b).len() implies (#[trigger] flying(
        b,
    )[i]).id < (#[trigger] flying(b)[j]).id by {
        if j < b.active.len() {
            assert(flying(b)[i] == b.active[i] && flying(b)[j] == b.active[j]);
        } else if i < b.active.len() {
            assert(flying(b)[i] == b.active[i]);
        }
    }
    let after = placed_after_spawn(b);
    assert forall|i: int| 0 <= i < after.len() implies (#[trigger] after[i]).cells
        == b.placed[i].cells && after[i].mode == b.placed[i].mode by {
        if spawning(b) {
            assert(after[i] == after_spawn(b.placed[i]));
        }
    }
    assert forall|i: int, j: int|
        0 <= i < after.len() && 0 <= j < after.len() && i != j implies !crate::cells::cells_overlap(
        (#[trigger] after[i]).cells,
        (#[trigger] after[j]).cells,
    ) by {
        assert(after[i].cells == b.placed[i].cells);
        assert(after[j].cells == b.placed[j].cells);
    }
    assert forall|i: int| 0 <= i < after.len() implies (#[trigger] after[i]).cells.len() > 0 by {
        assert(after[i].cells == b.placed[i].cells);
    }
    if in_range(b) {
        assert forall|i: int| 0 <= i < after.len() implies cells_near(
            (#[trigger] after[i]).cells,
        ) by {
            assert(after[i].cells == b.placed[i].cells);
        }
    }
}

/// The cells of every object after the splits are cells of an object before them.
pub proof fn lemma_splits_keep_near(
    objects: Seq<BlockObjectView>,
    res: Seq<Resolution>,
    k: int,
    first_id: int,
)
    requires
        objects_near(objects),
        res.len() == objects.len(),
        0 <= k <= res.len(),
    ensures
        objects_near(after_splits(objects, res, k, first_id)),
        objects_near(leavers(objects.take(k), res.take(k), first_id)),
    decreases k,
{
    let now = after_splits(objects, res, k, first_id);
    let left = leavers(objects.take(k), res.take(k), first_id);
    if k > 0 {
        lemma_splits_keep_near(objects, res, k - 1, first_id);
        lemma_leavers_step(objects, res, first_id, k - 1);
        let before = leavers(objects.take(k - 1), res.take(k - 1), first_id);
        let whole = objects[k - 1].cells;
        assert(cells_near(whole));
        assert forall|i: int| 0 <= i < left.len() implies cells_near((#[trigger] left[i]).cells) by {
            if i < before.len() {
                assert(left[i] == before[i]);
            } else {
                let part = left[i].cells;
                match res[k - 1] {
                    Resolution::SplitVert { seam } => {
                        lemma_filter_members(whole, |p: Point| p.x > seam as int);
                    },
                    Resolution::SplitHori { seam } => {
                        lemma_filter_members(whole, |p: Point| p.y > seam as int);
                    },
                    _ => {},
                }
                assert forall|c: int| 0 <= c < part.len() implies near(#[trigger] part[c]) by {
                    assert(part.contains(part[c]));
                    assert(whole.contains(part[c]));
                    let w = choose|w: int| 0 <= w < whole.len() && whole[w] == part[c];
                }
            }
        }
    } else {
        assert(objects.take(0) =~= Seq::<BlockObjectView>::empty());
    }
    assert forall|i: int| 0 <= i < now.len() implies cells_near((#[trigger] now[i]).cells) by {
        if i < objects.len() {
            let whole = objects[i].cells;
            assert(cells_near(whole));
            if i < k {
                let part = now[i].cells;
                match res[i] {
                    Resolution::SplitVert { seam } => {
                        lemma_filter_members(whole, |p: Point| p.x <= seam as int);
                    },
                    Resolution::SplitHori { seam } => {
                        lemma_filter_members(whole, |p: Point| p.y <= seam as int);
                    },
                    _ => {},
                }
                assert forall|c: int| 0 <= c < part.len() implies near(#[trigger] part[c]) by {
                    assert(part.contains(part[c]));
                    assert(whole.contains(part[c]));
                    let w = choose|w: int| 0 <= w < whole.len() && whole[w] == part[c];
                }
            }
        } else {
            assert(now[i] == left[i - objects.len()]);
        }
    }
}

/// The cells of every object after merging are cells of objects before it.
pub proof fn lemma_merging_keeps_near(
    objects: Seq<BlockObjectView>,
    moves: Seq<MovementType>,
    first_id: int,
)
    requires
        objects_near(objects),
    ensures
        objects_near(after_merging(objects, moves, first_id)),
{
    let keys = leaders_of(boxes_of(objects), moves);
    let n = objects.len() as int;
    lemma_after_merging(objects, keys, n, first_id);
    let alone = survivors(objects, keys, n);
    let groups = merged_groups(objects, keys, n, first_id);
    let all = after_merging(objects, moves, first_id);
    assert forall|i: int| 0 <= i < all.len() implies cells_near((#[trigger] all[i]).cells) by {
        if i < alone.len() {
            assert(all[i] == alone[i]);
            assert(objects.contains(alone[i]));
            let k = choose|k: int| 0 <= k < objects.len() && objects[k] == alone[i];
            assert(cells_near(objects[k].cells));
        } else {
            let g = groups[i - alone.len()];
            assert(all[i] == g);
            let l = choose|l: int|
                0 <= l < n && keys[l] == l && g == merged_object(
                    objects,
                    keys,
                    l,
                    first_id + (i - alone.len()),
                );
            let part = g.cells;
            assert forall|c: int| 0 <= c < part.len() implies near(#[trigger] part[c]) by {
                assert(part.contains(part[c]));
                lemma_group_cells(objects, keys, l, n, 0, part[c]);
                let m = choose|m: int|
                    0 <= m < n && keys[m] == l && (#[trigger] objects[m]).cells.contains(part[c]);
                assert(cells_near(objects[m].cells));
                let w = choose|w: int|
                    0 <= w < objects[m].cells.len() && objects[m].cells[w] == part[c];
            }
        }
    }
}

/// The moves that survive merging are moves of before.
pub proof fn lemma_surviving_moves_tame(moves: Seq<MovementType>, keys: Seq<int>, upto: int)
    requires
        moves_tame(moves),
        0 <= upto <= moves.len(),
    ensures
        moves_tame(surviving_moves(moves, keys, upto)),
    decreases upto,
{
    if upto > 0 {
        lemma_surviving_moves_tame(moves, keys, upto - 1);
        let before = surviving_moves(moves, keys, upto - 1);
        let now = surviving_moves(moves, keys, upto);
        assert forall|i: int| 0 <= i < now.len() implies tame(#[trigger] now[i]) by {
            if i < before.len() {
                assert(now[i] == before[i]);
            } else {
                assert(now[i] == moves[upto - 1]);
            }
        }
    }
}

/// The moves of the parts that leave are translations.
pub proof fn lemma_leaver_moves_tame(res: Seq<Resolution>)
    ensures
        moves_tame(leaver_moves(res)),
    decreases res.len(),
{
    if res.len() > 0 {
        lemma_leaver_moves_tame(res.drop_last());
        let before = leaver_moves(res.drop_last());
        let now = leaver_moves(res);
        assert forall|i: int| 0 <= i < now.len() implies tame(#[trigger] now[i]) by {
            if i < before.len() {
                assert(now[i] == before[i]);
            }
        }
    }
}

/// Near objects with tame moves reach only cells that a position can hold.
pub proof fn lemma_near_moves_fit(objects: Seq<BlockObjectView>, moves: Seq<MovementType>)
    requires
        objects_near(objects),
        moves_tame(moves),
        moves.len() == objects.len(),
    ensures
        moves_fit(objects, moves),
{
    assert forall|i: int| 0 <= i < objects.len() implies cells_fit(
        (#[trigger] moved(objects[i], moves[i])).cells,
    ) by {
        let from = objects[i].cells;
        let to = moved(objects[i], moves[i]).cells;
        assert(cells_near(from));
        assert(tame(moves[i]));
        assert forall|c: int| 0 <= c < to.len() implies (#[trigger] to[c]).fits() by {
            assert(near(from[c]));
            match moves[i] {
                MovementType::Translation(d) => {
                    assert(to[c] == from[c].shift(d.step().x, d.step().y));
                },
                MovementType::Rotation { cw, around } => {
                    if cw {
                        assert(to[c] == from[c].turn_cw(around@));
                    } else {
                        assert(to[c] == from[c].turn_ccw(around@));
                    }
                },
                MovementType::NoMove => {
                    assert(to[c] == from[c]);
                },
            }
        }
    }
}

/// On a board that is as a board should be and in range, with no conflict in this tick,
/// every object has cells when the merging begins, and every move that follows the
/// merging reaches only cells that a position can hold.
pub proof fn lemma_before_moves(b: BoardView)
    requires
        b.wf(),
    ensures
        all_solid(parted(b)),
        all_solid(rested_all(b)),
        all_solid(merged(b)),
        all_solid(arrived(b)),
        merged(b).len() == merged_moves(b).len(),
        in_range(b) && direction_conflict(b) == flying(b).len() ==> moves_fit(
            merged(b),
            merged_moves(b),
        ),
{
    lemma_spawn_stage(b);
    let res = resolved(b);
    let dc = direction_conflict(b);
    lemma_first_of_kind_bounds(res, Resolution::DirectionConflict);
    lemma_splits_keep_solid(flying(b), b.tiles, res, dc, ids_after_spawn(b));
    assert forall|i: int| 0 <= i < rested_all(b).len() implies (#[trigger] rested_all(
        b,
    )[i]).cells.len() > 0 by {
        assert(rested_all(b)[i].cells == parted(b)[i].cells);
    }
    lemma_merging_keeps_solid(rested_all(b), parted_moves(b), ids_after_splits(b));
    assert forall|i: int| 0 <= i < arrived(b).len() implies (#[trigger] arrived(b)[i]).cells.len()
        > 0 by {
        assert(arrived(b)[i] == moved(merged(b)[i], merged_moves(b)[i]));
        assert(merged(b)[i].cells.len() > 0);
    }
    if in_range(b) && dc == flying(b).len() {
        lemma_splits_keep_near(flying(b), res, dc, ids_after_spawn(b));
        assert forall|i: int| 0 <= i < rested_all(b).len() implies cells_near(
            (#[trigger] rested_all(b)[i]).cells,
        ) by {
            assert(rested_all(b)[i].cells == parted(b)[i].cells);
        }
        lemma_merging_keeps_near(rested_all(b), parted_moves(b), ids_after_splits(b));
        // the moves
        let first = Seq::new(res.len(), |i: int| move_of(res[i]));
        assert forall|i: int| 0 <= i < first.len() implies tame(#[trigger] first[i]) by {
            let rel = relevant_tiles(b.tiles, flying(b)[i].cells);
            lemma_relevant_tiles(b.tiles, flying(b)[i].cells);
            assert(res[i] == resolution(rel, flying(b)[i].cells));
            if move_of(res[i]) is Rotation {
                assert(b.tiles.contains(rel[0]));
                let t = choose|t: int| 0 <= t < b.tiles.len() && b.tiles[t] == rel[0];
                assert(near(b.tiles[t].pos@));
            }
        }
        lemma_leaver_moves_tame(res);
        let pm = parted_moves(b);
        assert forall|i: int| 0 <= i < pm.len() implies tame(#[trigger] pm[i]) by {
            if i < first.len() {
                assert(pm[i] == first[i]);
            } else {
                assert(pm[i] == leaver_moves(res)[i - first.len()]);
            }
        }
        let keys = leaders_of(boxes_of(rested_all(b)), pm);
        let n = rested_all(b).len() as int;
        lemma_moves_count(flying(b), res, ids_after_spawn(b));
        assert(pm.len() == n) by {
            assert(flying(b).take(res.len() as int) =~= flying(b));
            assert(res.take(res.len() as int) =~= res);
        }
        lemma_surviving_moves_tame(pm, keys, n);
        let mm = merged_moves(b);
        let alone = surviving_moves(pm, keys, n);
        assert forall|i: int| 0 <= i < mm.len() implies tame(#[trigger] mm[i]) by {
            if i < alone.len() {
                assert(mm[i] == alone[i]);
            }
        }
        lemma_near_moves_fit(merged(b), mm);
    }
}

/// Filtering keeps identities fresh, and the last object that is kept has no greater
/// identity than the last of all.
pub proof fn lemma_filter_keeps_ids(
    objects: Seq<BlockObjectView>,
    pred: spec_fn(BlockObjectView) -> bool,
    next_id: int,
)
    requires
        ids_fresh(objects, next_id),
    ensures
        ids_fresh(objects.filter(pred), next_id),
        objects.filter(pred).len() > 0 ==> objects.len() > 0 && objects.filter(pred).last().id
            <= objects.last().id,
    decreases objects.len(),
{
    reveal(Seq::filter);
    if objects.len() > 0 {
        let front = objects.drop_last();
        assert forall|i: int| 0 <= i < front.len() implies 0 <= (#[trigger] front[i]).id
            < next_id by {
            assert(front[i] == objects[i]);
        }
        assert forall|i: int, j: int| 0 <= i < j < front.len() implies (#[trigger] front[i]).id < (
        #[trigger] front[j]).id by {
            assert(front[i] == objects[i] && front[j] == objects[j]);
        }
        lemma_filter_keeps_ids(front, pred, next_id);
        let kept = front.filter(pred);
        let all = objects.filter(pred);
        if kept.len() > 0 {
            assert(front[front.len() - 1] == objects[front.len() - 1]);
            assert(objects[front.len() - 1].id < objects[objects.len() - 1].id);
        }
        assert forall|i: int| 0 <= i < all.len() implies 0 <= (#[trigger] all[i]).id < next_id by {
            if i < kept.len() {
                assert(all[i] == kept[i]);
            } else {
                assert(all[i] == objects[objects.len() - 1]);
            }
        }
        assert forall|i: int, j: int| 0 <= i < j < all.len() implies (#[trigger] all[i]).id < (
        #[trigger] all[j]).id by {
            if j < kept.len() {
                assert(all[i] == kept[i] && all[j] == kept[j]);
            } else {
                assert(all[i] == kept[i]);
                assert(all[j] == objects[objects.len() - 1]);
                if i < kept.len() - 1 {
                    assert(kept[i].id < kept[kept.len() - 1].id);
                }
            }
        }
    }
}

/// The objects that take no part in a merge keep fresh identities, and the last of them
/// has no greater identity than the last object looked at.
pub proof fn lemma_survivors_keep_ids(
    objects: Seq<BlockObjectView>,
    keys: Seq<int>,
    upto: int,
    next_id: int,
)
    requires
        ids_fresh(objects, next_id),
        0 <= upto <= objects.len(),
    ensures
        ids_fresh(survivors(objects, keys, upto), next_id),
        survivors(objects, keys, upto).len() > 0 ==> upto > 0 && survivors(
            objects,
            keys,
            upto,
        ).last().id <= objects[upto - 1].id,
    decreases upto,
{
    if upto > 0 {
        lemma_survivors_keep_ids(objects, keys, upto - 1, next_id);
        let kept = survivors(objects, keys, upto - 1);
        let all = survivors(objects, keys, upto);
        if kept.len() > 0 {
            assert(objects[upto - 2].id < objects[upto - 1].id);
        }
        assert forall|i: int| 0 <= i < all.len() implies 0 <= (#[trigger] all[i]).id < next_id by {
            if i < kept.len() {
                assert(all[i] == kept[i]);
            } else {
                assert(all[i] == objects[upto - 1]);
            }
        }
        assert forall|i: int, j: int| 0 <= i < j < all.len() implies (#[trigger] all[i]).id < (
        #[trigger] all[j]).id by {
            if j < kept.len() {
                assert(all[i] == kept[i] && all[j] == kept[j]);
            } else {
                assert(all[i] == kept[i]);
                assert(all[j] == objects[upto - 1]);
                if i < kept.len() - 1 {
                    assert(kept[i].id < kept[kept.len() - 1].id);
                }
            }
        }
    }
}

/// Through every stage of a tick, every object in flight has an identity of its own
/// below the next free one.
pub proof fn lemma_ids_stay_fresh(b: BoardView)
    requires
        b.wf(),
    ensures
        ids_fresh(flying(b), ids_after_spawn(b)),
        ids_fresh(parted(b), ids_after_splits(b)),
        ids_fresh(rested_all(b), ids_after_splits(b)),
        ids_fresh(merged(b), ids_after_merging(b)),
        ids_fresh(arrived(b), ids_after_merging(b)),
        ids_fresh(after_intake(placed_after_spawn(b), arrived(b)), ids_after_merging(b)),
        0 <= b.next_id <= ids_after_spawn(b) <= ids_after_splits(b) <= ids_after_merging(b),
{
    lemma_spawn_stage(b);
    let res = resolved(b);
    let dc = direction_conflict(b);
    lemma_first_of_kind_bounds(res, Resolution::DirectionConflict);
    let n1 = ids_after_spawn(b);
    let n2 = ids_after_splits(b);
    let n3 = ids_after_merging(b);
    // the splits
    let left = leavers(flying(b).take(dc), res.take(dc), n1);
    lemma_leavers_ids(flying(b).take(dc), res.take(dc), n1);
    let p = parted(b);
    assert forall|i: int| 0 <= i < p.len() implies 0 <= (#[trigger] p[i]).id < n2 && (i
        < flying(b).len() ==> p[i].id == flying(b)[i].id) && (i >= flying(b).len() ==> p[i].id
        == n1 + (i - flying(b).len())) by {
        if i < flying(b).len() {
            assert(0 <= flying(b)[i].id < n1);
        } else {
            assert(p[i] == left[i - flying(b).len()]);
        }
    }
    assert forall|i: int, j: int| 0 <= i < j < p.len() implies (#[trigger] p[i]).id < (
    #[trigger] p[j]).id by {
        if j < flying(b).len() {
            assert(flying(b)[i].id < flying(b)[j].id);
        } else if i < flying(b).len() {
            assert(flying(b)[i].id < n1);
        }
    }
    let r = rested_all(b);
    assert forall|i: int| 0 <= i < r.len() implies (#[trigger] r[i]).id == p[i].id by {}
    assert(ids_fresh(r, n2)) by {
        assert forall|i: int, j: int| 0 <= i < j < r.len() implies (#[trigger] r[i]).id < (
        #[trigger] r[j]).id by {
            assert(p[i].id < p[j].id);
        }
    }
    // the merging
    let keys = leaders_of(boxes_of(r), parted_moves(b));
    let n = r.len() as int;
    lemma_survivors_keep_ids(r, keys, n, n2);
    lemma_merged_groups(r, keys, n, n2);
    let alone = survivors(r, keys, n);
    let groups = merged_groups(r, keys, n, n2);
    let m = merged(b);
    assert forall|i: int| 0 <= i < m.len() implies 0 <= (#[trigger] m[i]).id < n3 && (i
        < alone.len() ==> m[i].id < n2) && (i >= alone.len() ==> m[i].id == n2 + (i
        - alone.len())) by {
        if i < alone.len() {
            assert(m[i] == alone[i]);
        } else {
            assert(m[i] == groups[i - alone.len()]);
        }
    }
    assert forall|i: int, j: int| 0 <= i < j < m.len() implies (#[trigger] m[i]).id < (
    #[trigger] m[j]).id by {
        if j < alone.len() {
            assert(m[i] == alone[i] && m[j] == alone[j]);
        }
    }
    let a = arrived(b);
    assert(ids_fresh(a, n3)) by {
        assert forall|i: int| 0 <= i < a.len() implies 0 <= (#[trigger] a[i]).id < n3 by {
            assert(a[i].id == m[i].id);
        }
        assert forall|i: int, j: int| 0 <= i < j < a.len() implies (#[trigger] a[i]).id < (
        #[trigger] a[j]).id by {
            assert(a[i].id == m[i].id && a[j].id == m[j].id);
            assert(m[i].id < m[j].id);
        }
    }
    lemma_filter_keeps_ids(a, stays(placed_after_spawn(b)), n3);
}

/// A board in range has identities left for every object that its tick brings forth.
pub proof fn lemma_id_room(b: BoardView)
    requires
        b.wf(),
        in_range(b),
    ensures
        b.next_id + b.placed.len() <= i32::MAX,
        ids_after_spawn(b) + flying(b).len() <= i32::MAX,
        direction_conflict(b) == flying(b).len() ==> ids_after_splits(b) + rested_all(b).len()
            <= i32::MAX,
        ids_after_merging(b) <= i32::MAX,
{
    lemma_spawn_stage(b);
    let res = resolved(b);
    let dc = direction_conflict(b);
    lemma_first_of_kind_bounds(res, Resolution::DirectionConflict);
    lemma_moves_count(flying(b).take(dc), res.take(dc), ids_after_spawn(b));
    lemma_before_moves(b);
    lemma_merging_keeps_solid(rested_all(b), parted_moves(b), ids_after_splits(b));
}

/// A tick leaves a board as a board should be.
pub proof fn lemma_tick_keeps_wf(b: BoardView)
    requires
        b.wf(),
    ensures
        board_after_tick(b).wf(),
{
    lemma_spawn_stage(b);
    lemma_before_moves(b);
    lemma_ids_stay_fresh(b);
    let after = board_after_tick(b);
    assert forall|i: int, j: int|
        0 <= i < flipped_tiles(b).len() && 0 <= j < flipped_tiles(b).len() && i != j implies (
    #[trigger] flipped_tiles(b)[i]).pos != (#[trigger] flipped_tiles(b)[j]).pos by {
        assert(flipped_tiles(b)[i].pos == b.tiles[i].pos);
        assert(flipped_tiles(b)[j].pos == b.tiles[j].pos);
    }
    let base = placed_after_spawn(b);
    let filled = taking(b).placed;
    lemma_intake_keeps_slots(base, arrived(b), arrived(b).len() as int);
    assert forall|i: int| 0 <= i < filled.len() implies (#[trigger] filled[i]).cells.len()
        > 0 by {
        assert(filled[i].cells == base[i].cells);
    }
    assert forall|i: int, j: int|
        0 <= i < filled.len() && 0 <= j < filled.len() && i != j implies !crate::cells::cells_overlap(
        (#[trigger] filled[i]).cells,
        (#[trigger] filled[j]).cells,
    ) by {
        assert(filled[i].cells == base[i].cells);
        assert(filled[j].cells == base[j].cells);
    }
    let kept = after_intake(base, arrived(b));
    lemma_filter_members(arrived(b), stays(base));
    assert forall|i: int| 0 <= i < kept.len() implies (#[trigger] kept[i]).cells.len() > 0 by {
        assert(kept.contains(kept[i]));
        assert(arrived(b).contains(kept[i]));
        let k = choose|k: int| 0 <= k < arrived(b).len() && arrived(b)[k] == kept[i];
    }
}

} // verus!
