//! Merging: the objects of each group of `groups` become one new object.

use vstd::prelude::*;
use crate::block::{
    all_solid, all_wf, fresh_view, views_of, BlockObject, BlockObjectMode, BlockObjectView,
};
use crate::cells::{bottom_right_of, top_left_of};
use crate::groups::{
    connected, grouped, leaders_of, leads, lemma_connected_linked, lemma_connected_self,
    lemma_connected_trans, lemma_keys_are_leaders, lemma_total_floor, lemma_total_update, linked,
    meets, total, Bounds,
};
use crate::helpers::{BoardPos, Direction, MovementType, Point};

verus! {

/// The bounds that a pair of corners stands for.
pub open spec fn bounds_view(corners: (BoardPos, BoardPos)) -> Bounds {
    Bounds { top_left: corners.0@, bottom_right: corners.1@ }
}

/// The bounds that a list of pairs of corners stands for.
pub open spec fn boxes_view(corners: Seq<(BoardPos, BoardPos)>) -> Seq<Bounds> {
    corners.map_values(|c: (BoardPos, BoardPos)| bounds_view(c))
}

/// The bounding box of an object.
pub open spec fn bounds_of(b: BlockObjectView) -> Bounds {
    Bounds { top_left: top_left_of(b.cells), bottom_right: bottom_right_of(b.cells) }
}

/// The bounding boxes of the objects, in the order of the list.
pub open spec fn boxes_of(objects: Seq<BlockObjectView>) -> Seq<Bounds> {
    objects.map_values(|b: BlockObjectView| bounds_of(b))
}

/// The keys as integers.
pub open spec fn key_ints(keys: Seq<usize>) -> Seq<int> {
    keys.map_values(|k: usize| k as int)
}

/// The objects among the first `upto` that take no part in a merge, in order. `keys`
/// holds the leader of every object.
pub open spec fn survivors(objects: Seq<BlockObjectView>, keys: Seq<int>, upto: int) -> Seq<
    BlockObjectView,
>
    decreases upto,
{
    if upto <= 0 {
        Seq::empty()
    } else {
        let rest = survivors(objects, keys, upto - 1);
        if keys[upto - 1] == keys.len() {
            rest.push(objects[upto - 1])
        } else {
            rest
        }
    }
}

/// The moves of the objects of `survivors`, in the same order.
pub open spec fn surviving_moves(moves: Seq<MovementType>, keys: Seq<int>, upto: int) -> Seq<
    MovementType,
>
    decreases upto,
{
    if upto <= 0 {
        Seq::empty()
    } else {
        let rest = surviving_moves(moves, keys, upto - 1);
        if keys[upto - 1] == keys.len() {
            rest.push(moves[upto - 1])
        } else {
            rest
        }
    }
}

/// The cells of those among the first `upto` objects whose leader is `l`, object after
/// object in the order of the list.
pub open spec fn group_cells(objects: Seq<BlockObjectView>, keys: Seq<int>, l: int, upto: int) -> Seq<
    Point,
>
    decreases upto,
{
    if upto <= 0 {
        Seq::empty()
    } else {
        let rest = group_cells(objects, keys, l, upto - 1);
        if keys[upto - 1] == l {
            rest + objects[upto - 1].cells
        } else {
            rest
        }
    }
}

/// The object that a group becomes: a new object in flight, under the identity `id`, that
/// holds the cells of all the members.
pub open spec fn merged_object(
    objects: Seq<BlockObjectView>,
    keys: Seq<int>,
    l: int,
    id: int,
) -> BlockObjectView {
    BlockObjectView {
        id,
        ..fresh_view(
            group_cells(objects, keys, l, objects.len() as int),
            BlockObjectMode::Processing,
        )
    }
}

/// The number of groups whose leader is among the first `upto` objects.
pub open spec fn group_count(keys: Seq<int>, upto: int) -> nat
    decreases upto,
{
    if upto <= 0 {
        0
    } else if keys[upto - 1] == upto - 1 {
        group_count(keys, upto - 1) + 1
    } else {
        group_count(keys, upto - 1)
    }
}

/// The merged objects of the groups whose leader is among the first `upto` objects, in
/// the order of their leaders. They get the identities from `first_id` on, one after the
/// other.
pub open spec fn merged_groups(
    objects: Seq<BlockObjectView>,
    keys: Seq<int>,
    upto: int,
    first_id: int,
) -> Seq<BlockObjectView>
    decreases upto,
{
    if upto <= 0 {
        Seq::empty()
    } else {
        let rest = merged_groups(objects, keys, upto - 1, first_id);
        if keys[upto - 1] == upto - 1 {
            rest.push(merged_object(objects, keys, upto - 1, first_id + rest.len()))
        } else {
            rest
        }
    }
}

/// The objects in flight after merging: those that took no part, in their old order, and
/// behind them one new object for each group, in the order of the leaders, with the
/// identities from `first_id` on.
pub open spec fn after_merging(
    objects: Seq<BlockObjectView>,
    moves: Seq<MovementType>,
    first_id: int,
) -> Seq<BlockObjectView> {
    let keys = leaders_of(boxes_of(objects), moves);
    survivors(objects, keys, objects.len() as int) + merged_groups(
        objects,
        keys,
        objects.len() as int,
        first_id,
    )
}

/// The number of groups that merge.
pub open spec fn groups_merging(objects: Seq<BlockObjectView>, moves: Seq<MovementType>) -> nat {
    group_count(leaders_of(boxes_of(objects), moves), objects.len() as int)
}

/// The moves of the objects of `after_merging`, in the same order: a merged object rests.
pub open spec fn moves_after_merging(objects: Seq<BlockObjectView>, moves: Seq<MovementType>) -> Seq<
    MovementType,
> {
    let keys = leaders_of(boxes_of(objects), moves);
    surviving_moves(moves, keys, objects.len() as int) + Seq::new(
        groups_merging(objects, moves),
        |i: int| MovementType::NoMove,
    )
}

/// There are as many merged objects as groups, no more than objects, and each has the
/// identity `first_id` and its place among them.
pub proof fn lemma_merged_groups(
    objects: Seq<BlockObjectView>,
    keys: Seq<int>,
    upto: int,
    first_id: int,
)
    ensures
        merged_groups(objects, keys, upto, first_id).len() == group_count(keys, upto),
        upto >= 0 ==> group_count(keys, upto) <= upto,
        upto < 0 ==> group_count(keys, upto) == 0,
        forall|j: int|
            0 <= j < merged_groups(objects, keys, upto, first_id).len() ==> (
            #[trigger] merged_groups(objects, keys, upto, first_id)[j]).id == first_id + j,
    decreases upto,
{
    if upto > 0 {
        lemma_merged_groups(objects, keys, upto - 1, first_id);
        let rest = merged_groups(objects, keys, upto - 1, first_id);
        let all = merged_groups(objects, keys, upto, first_id);
        assert forall|j: int| 0 <= j < all.len() implies (#[trigger] all[j]).id == first_id + j by {
            if j < rest.len() {
                assert(all[j] == rest[j]);
            }
        }
    }
}

/// What the keys are like while the leaders are being worked out: in bounds; a key below
/// the number of objects names a pushing object connected to its owner; no pushing object
/// has a key above its own place; an object that takes no part has the number of objects.
#[verifier::opaque]
pub open spec fn sound_keys(boxes: Seq<Bounds>, moves: Seq<MovementType>, keys: Seq<int>) -> bool {
    &&& keys.len() == boxes.len()
    &&& forall|k: int|
        0 <= k < keys.len() ==> 0 <= #[trigger] keys[k] <= keys.len() && (keys[k] < keys.len()
            ==> leads(boxes, moves, keys[k]) && connected(boxes, moves, k, keys[k]))
    &&& forall|k: int| 0 <= k < keys.len() && leads(boxes, moves, k) ==> #[trigger] keys[k] <= k
    &&& forall|k: int|
        0 <= k < keys.len() && !grouped(boxes, moves, k) ==> #[trigger] keys[k] == keys.len()
}

/// Every pair of pushing objects that comes before the pair `(i, j)`, row by row, shares
/// its key.
#[verifier::opaque]
pub open spec fn settled_before(
    boxes: Seq<Bounds>,
    moves: Seq<MovementType>,
    keys: Seq<int>,
    i: int,
    j: int,
) -> bool {
    forall|a: int, b: int|
        (a < i || (a == i && b < j)) && #[trigger] meets(boxes, moves, a, b) ==> keys[a] == keys[b]
}

/// The keys to begin with are sound: every pushing object has its own place for a key,
/// every other object the number of objects.
proof fn lemma_sound_start(boxes: Seq<Bounds>, moves: Seq<MovementType>, kv: Seq<int>)
    requires
        kv.len() == boxes.len(),
        forall|a: int|
            0 <= a < kv.len() ==> #[trigger] kv[a] == (if leads(boxes, moves, a) {
                a
            } else {
                kv.len() as int
            }),
    ensures
        sound_keys(boxes, moves, kv),
{
    reveal(sound_keys);
    let n = kv.len();
    assert forall|a: int| 0 <= a < n implies 0 <= #[trigger] kv[a] <= n && (kv[a] < n ==> leads(
        boxes,
        moves,
        kv[a],
    ) && connected(boxes, moves, a, kv[a])) by {
        lemma_connected_self(boxes, moves, a);
    }
    assert forall|a: int| 0 <= a < n && !grouped(boxes, moves, a) implies #[trigger] kv[a]
        == n by {
        if leads(boxes, moves, a) {
            let b = choose|b: int| meets(boxes, moves, a, b);
            assert(linked(boxes, moves, a, b));
        }
    }
}

/// A pair that shares its key, or does not push, settles one more pair; the end of a
/// row is the begin of the next.
proof fn lemma_settled_step(
    boxes: Seq<Bounds>,
    moves: Seq<MovementType>,
    kv: Seq<int>,
    i: int,
    j: int,
)
    requires
        settled_before(boxes, moves, kv, i, j),
        meets(boxes, moves, i, j) ==> kv[i] == kv[j],
    ensures
        settled_before(boxes, moves, kv, i, j + 1),
        j + 1 >= boxes.len() ==> settled_before(boxes, moves, kv, i + 1, 0),
{
    reveal(settled_before);
}

/// Before the first pair nothing is left to settle.
proof fn lemma_settled_start(boxes: Seq<Bounds>, moves: Seq<MovementType>, kv: Seq<int>)
    ensures
        settled_before(boxes, moves, kv, 0, 0),
{
    reveal(settled_before);
}

/// Sound keys that every pushing pair shares are the leaders.
proof fn lemma_settled_keys_are_leaders(
    boxes: Seq<Bounds>,
    moves: Seq<MovementType>,
    kv: Seq<int>,
)
    requires
        sound_keys(boxes, moves, kv),
        settled_before(boxes, moves, kv, boxes.len() as int, 0),
    ensures
        kv == leaders_of(boxes, moves),
{
    reveal(sound_keys);
    reveal(settled_before);
    assert forall|a: int, b: int| #[trigger] meets(boxes, moves, a, b) implies kv[a] == kv[b] by {}
    lemma_keys_are_leaders(boxes, moves, kv);
}

/// The corners of the bounding box of every object of the list.
pub fn corners_of_each(active: &mut Vec<BlockObject>) -> (corners: Vec<(BoardPos, BoardPos)>)
    requires
        all_wf(old(active)@),
        all_solid(views_of(old(active)@)),
    ensures
        corners.len() == old(active).len(),
        final(active).len() == old(active).len(),
        boxes_view(corners@) == boxes_of(views_of(old(active)@)),
        views_of(final(active)@) == views_of(old(active)@),
        all_wf(final(active)@),
{
    let ghost before = views_of(active@);
    let mut corners: Vec<(BoardPos, BoardPos)> = Vec::new();
    let n = active.len();
    let mut i: usize = 0;
    while i < n
        invariant
            i <= n,
            n == active.len(),
            before.len() == n,
            all_solid(before),
            all_wf(active@),
            corners.len() == i,
            forall|k: int| 0 <= k < n ==> (#[trigger] active@[k])@ == before[k],
            forall|k: int| 0 <= k < i ==> bounds_view(#[trigger] corners@[k]) == bounds_of(before[k]),
        decreases n - i,
    {
        assert(active@[i as int]@ == before[i as int]);
        assert(before[i as int].cells.len() > 0);
        let tl = match active[i].get_top_left() {
            Ok(p) => p,
            Err(_) => BoardPos { x: 0, y: 0 },
        };
        let br = match active[i].get_bottom_right() {
            Ok(p) => p,
            Err(_) => BoardPos { x: 0, y: 0 },
        };
        corners.push((tl, br));
        i += 1;
    }
    assert(views_of(active@) =~= before);
    assert(boxes_view(corners@) =~= boxes_of(before));
    corners
}

/// Object `i` pushes against object `j`.
fn faces(moves: &Vec<MovementType>, corners: &Vec<(BoardPos, BoardPos)>, i: usize, j: usize) -> (r:
    bool)
    requires
        moves.len() == corners.len(),
        i < moves.len(),
        j < moves.len(),
    ensures
        r == meets(boxes_view(corners@), moves@, i as int, j as int),
{
    let (itl, ibr) = corners[i];
    let (jtl, jbr) = corners[j];
    assert(boxes_view(corners@)[i as int] == bounds_view(corners@[i as int]));
    assert(boxes_view(corners@)[j as int] == bounds_view(corners@[j as int]));
    match (moves[i], moves[j]) {
        (
            MovementType::Translation(Direction::Up),
            MovementType::Translation(Direction::Down),
        ) => ibr.x >= jtl.x && jbr.x >= itl.x && jbr.y as i64 == itl.y as i64 - 1,
        (
            MovementType::Translation(Direction::Left),
            MovementType::Translation(Direction::Right),
        ) => ibr.y >= jtl.y && jbr.y >= itl.y && jbr.x as i64 == itl.x as i64 - 1,
        _ => false,
    }
}

/// Object `i` pushes against some object.
fn pushes_any(moves: &Vec<MovementType>, corners: &Vec<(BoardPos, BoardPos)>, i: usize) -> (r: bool)
    requires
        moves.len() == corners.len(),
        i < moves.len(),
    ensures
        r == leads(boxes_view(corners@), moves@, i as int),
{
    let n = moves.len();
    let mut j: usize = 0;
    while j < n
        invariant
            j <= n,
            n == moves.len(),
            n == corners.len(),
            i < n,
            forall|b: int| 0 <= b < j ==> !meets(boxes_view(corners@), moves@, i as int, b),
        decreases n - j,
    {
        if faces(moves, corners, i, j) {
            return true;
        }
        j += 1;
    }
    false
}

/// Replacing the key of `i` by `target`, the smaller key of an object linked to `i`,
/// keeps the keys sound and lowers their sum.
proof fn lemma_lower_key(
    boxes: Seq<Bounds>,
    moves: Seq<MovementType>,
    kv: Seq<int>,
    i: int,
    j: int,
)
    requires
        sound_keys(boxes, moves, kv),
        linked(boxes, moves, i, j),
        0 <= i < kv.len(),
        0 <= j < kv.len(),
        kv[j] < kv[i],
    ensures
        sound_keys(boxes, moves, kv.update(i, kv[j])),
        total(kv.update(i, kv[j])) < total(kv),
{
    reveal(sound_keys);
    let nv = kv.update(i, kv[j]);
    lemma_total_update(kv, i, kv[j]);
    lemma_connected_linked(boxes, moves, i, j);
    lemma_connected_trans(boxes, moves, i, j, kv[j]);
    assert forall|k: int| 0 <= k < nv.len() implies 0 <= #[trigger] nv[k] <= nv.len() && (nv[k]
        < nv.len() ==> leads(boxes, moves, nv[k]) && connected(boxes, moves, k, nv[k])) by {
        if k != i {
            assert(nv[k] == kv[k]);
        }
    }
    assert forall|k: int| 0 <= k < nv.len() && leads(boxes, moves, k) implies #[trigger] nv[k]
        <= k by {
        assert(kv[k] <= k);
    }
    assert forall|k: int| 0 <= k < nv.len() && !grouped(boxes, moves, k) implies #[trigger] nv[k]
        == nv.len() by {
        assert(kv[k] == kv.len());
    }
}

/// If object `i` pushes against object `j` and their keys differ, the larger key gives
/// way to the smaller. Says whether a key changed.
fn relax_pair(
    moves: &Vec<MovementType>,
    corners: &Vec<(BoardPos, BoardPos)>,
    keys: &mut Vec<usize>,
    i: usize,
    j: usize,
) -> (changed: bool)
    requires
        moves.len() == corners.len(),
        old(keys).len() == moves.len(),
        i < moves.len(),
        j < moves.len(),
        sound_keys(boxes_view(corners@), moves@, key_ints(old(keys)@)),
    ensures
        final(keys).len() == old(keys).len(),
        sound_keys(boxes_view(corners@), moves@, key_ints(final(keys)@)),
        total(key_ints(final(keys)@)) <= total(key_ints(old(keys)@)),
        changed ==> total(key_ints(final(keys)@)) < total(key_ints(old(keys)@)),
        !changed ==> final(keys)@ == old(keys)@ && (meets(
            boxes_view(corners@),
            moves@,
            i as int,
            j as int,
        ) ==> old(keys)@[i as int] == old(keys)@[j as int]),
{
    let ghost boxes = boxes_view(corners@);
    let ghost kv = key_ints(keys@);
    if faces(moves, corners, i, j) {
        let ki = keys[i];
        let kj = keys[j];
        proof {
            assert(kv[i as int] == ki && kv[j as int] == kj);
            assert(linked(boxes, moves@, i as int, j as int));
            assert(linked(boxes, moves@, j as int, i as int));
        }
        if kj < ki {
            keys.set(i, kj);
            proof {
                assert(key_ints(keys@) =~= kv.update(i as int, kv[j as int]));
                lemma_lower_key(boxes, moves@, kv, i as int, j as int);
            }
            return true;
        } else if ki < kj {
            keys.set(j, ki);
            proof {
                assert(key_ints(keys@) =~= kv.update(j as int, kv[i as int]));
                lemma_lower_key(boxes, moves@, kv, j as int, i as int);
            }
            return true;
        }
    }
    false
}

/// The leader of every object: for an object that takes part in a merge, the first
/// pushing object of its group; for any other, the number of objects.
pub fn group_leaders(moves: &Vec<MovementType>, corners: &Vec<(BoardPos, BoardPos)>) -> (keys: Vec<
    usize,
>)
    requires
        moves.len() == corners.len(),
    ensures
        key_ints(keys@) == leaders_of(boxes_view(corners@), moves@),
{
    let ghost boxes = boxes_view(corners@);
    let n = moves.len();
    let mut keys: Vec<usize> = Vec::new();
    let mut k: usize = 0;
    while k < n
        invariant
            k <= n,
            n == moves.len(),
            n == corners.len(),
            boxes == boxes_view(corners@),
            keys.len() == k,
            forall|a: int|
                0 <= a < k ==> #[trigger] keys@[a] == (if leads(boxes, moves@, a) {
                    a
                } else {
                    n as int
                }),
        decreases n - k,
    {
        if pushes_any(moves, corners, k) {
            keys.push(k);
        } else {
            keys.push(n);
        }
        k += 1;
    }
    proof {
        let kv = key_ints(keys@);
        assert forall|a: int| 0 <= a < kv.len() implies #[trigger] kv[a] == (if leads(
            boxes,
            moves@,
            a,
        ) {
            a
        } else {
            kv.len() as int
        }) by {
            assert(kv[a] == keys@[a]);
        }
        lemma_sound_start(boxes, moves@, kv);
    }
    let mut changed = true;
    while changed
        invariant
            n == moves.len(),
            n == corners.len(),
            keys.len() == n,
            boxes == boxes_view(corners@),
            sound_keys(boxes, moves@, key_ints(keys@)),
            !changed ==> settled_before(boxes, moves@, key_ints(keys@), n as int, 0),
        decreases
                total(key_ints(keys@)),
                (if changed {
                    1int
                } else {
                    0int
                }),
    {
        let ghost start = key_ints(keys@);
        proof {
            lemma_total_floor(start);
        }
        changed = false;
        let mut i: usize = 0;
        proof {
            lemma_settled_start(boxes, moves@, start);
        }
        while i < n
            invariant
                i <= n,
                n == moves.len(),
                n == corners.len(),
                keys.len() == n,
                boxes == boxes_view(corners@),
                sound_keys(boxes, moves@, key_ints(keys@)),
                total(key_ints(keys@)) <= total(start),
                changed ==> total(key_ints(keys@)) < total(start),
                !changed ==> settled_before(boxes, moves@, key_ints(keys@), i as int, 0),
            decreases n - i,
        {
            let mut j: usize = 0;
            while j < n
                invariant
                    i < n,
                    j <= n,
                    n == moves.len(),
                    n == corners.len(),
                    keys.len() == n,
                    boxes == boxes_view(corners@),
                    boxes.len() == n,
                    sound_keys(boxes, moves@, key_ints(keys@)),
                    total(key_ints(keys@)) <= total(start),
                    changed ==> total(key_ints(keys@)) < total(start),
                    !changed ==> settled_before(boxes, moves@, key_ints(keys@), i as int, j as int),
                    !changed && j == n ==> settled_before(
                        boxes,
                        moves@,
                        key_ints(keys@),
                        i + 1,
                        0,
                    ),
                decreases n - j,
            {
                let ghost kv = key_ints(keys@);
                if relax_pair(moves, corners, &mut keys, i, j) {
                    changed = true;
                } else {
                    proof {
                        if !changed {
                            assert(kv[i as int] == keys@[i as int] && kv[j as int]
                                == keys@[j as int]);
                            lemma_settled_step(boxes, moves@, kv, i as int, j as int);
                        }
                    }
                }
                j += 1;
            }
            i += 1;
        }
        proof {
            lemma_total_floor(key_ints(keys@));
        }
    }
    proof {
        lemma_settled_keys_are_leaders(boxes, moves@, key_ints(keys@));
    }
    keys
}

/// Merges the objects of every group into one new object. The objects that take no part
/// keep their order and their moves; the new objects come behind them, in the order of
/// the leaders of their groups, and rest in this tick.
pub fn merge_groups(
    active: &mut Vec<BlockObject>,
    moves: &mut Vec<MovementType>,
    next_id: &mut i32,
)
    requires
        old(moves).len() == old(active).len(),
        all_wf(old(active)@),
        all_solid(views_of(old(active)@)),
        *old(next_id) + old(active).len() <= i32::MAX,
    ensures
        views_of(final(active)@) == after_merging(
            views_of(old(active)@),
            old(moves)@,
            *old(next_id) as int,
        ),
        final(moves)@ == moves_after_merging(views_of(old(active)@), old(moves)@),
        *final(next_id) == *old(next_id) + groups_merging(views_of(old(active)@), old(moves)@),
        all_wf(final(active)@),
{
    let ghost before = views_of(active@);
    let ghost first_moves = moves@;
    let ghost first = *next_id as int;
    let corners = corners_of_each(active);
    let keys = group_leaders(moves, &corners);
    let ghost kv = key_ints(keys@);
    let n = active.len();
    assert(kv.len() == n);
    let mut kept: Vec<BlockObject> = Vec::new();
    let mut kept_moves: Vec<MovementType> = Vec::new();
    let mut k: usize = 0;
    assert(views_of(kept@) =~= survivors(before, kv, 0));
    while k < n
        invariant
            k <= n,
            n == active.len(),
            n == moves.len(),
            n == keys.len(),
            kv == key_ints(keys@),
            before == views_of(active@),
            first_moves == moves@,
            all_wf(kept@),
            views_of(kept@) == survivors(before, kv, k as int),
            kept_moves@ == surviving_moves(first_moves, kv, k as int),
        decreases n - k,
    {
        assert(kv[k as int] == keys@[k as int]);
        if keys[k] == n {
            let ghost held = kept@;
            let copy = active[k].clone();
            assert(copy@ == before[k as int]);
            kept.push(copy);
            kept_moves.push(moves[k]);
            assert(views_of(kept@) =~= views_of(held).push(copy@));
        }
        k += 1;
    }
    let ghost alone = views_of(kept@);
    let ghost alone_moves = kept_moves@;
    let mut l: usize = 0;
    assert(views_of(kept@) =~= alone + merged_groups(before, kv, 0, first));
    assert(kept_moves@ =~= alone_moves + Seq::new(
        group_count(kv, 0),
        |i: int| MovementType::NoMove,
    ));
    while l < n
        invariant
            l <= n,
            n == active.len(),
            n == keys.len(),
            kv == key_ints(keys@),
            before == views_of(active@),
            before.len() == n,
            first + n <= i32::MAX,
            all_wf(kept@),
            views_of(kept@) == alone + merged_groups(before, kv, l as int, first),
            kept_moves@ == alone_moves + Seq::new(
                group_count(kv, l as int),
                |i: int| MovementType::NoMove,
            ),
            *next_id == first + group_count(kv, l as int),
        decreases n - l,
    {
        assert(kv[l as int] == keys@[l as int]);
        proof {
            lemma_merged_groups(before, kv, l as int, first);
        }
        if keys[l] == l {
            let mut whole = BlockObject::new();
            let mut m: usize = 0;
            assert(whole.cells() =~= group_cells(before, kv, l as int, 0));
            while m < n
                invariant
                    m <= n,
                    l < n,
                    n == active.len(),
                    n == keys.len(),
                    kv == key_ints(keys@),
                    before == views_of(active@),
                    whole.wf(),
                    whole@ == fresh_view(
                        group_cells(before, kv, l as int, m as int),
                        BlockObjectMode::Processing,
                    ),
                decreases n - m,
            {
                assert(kv[m as int] == keys@[m as int]);
                if keys[m] == l {
                    let mut part = active[m].clone();
                    assert(part@ == before[m as int]);
                    whole.merge(&mut part);
                }
                m += 1;
            }
            let ghost held = kept@;
            whole.id = *next_id;
            *next_id = *next_id + 1;
            kept.push(whole);
            kept_moves.push(MovementType::NoMove);
            assert(views_of(kept@) =~= views_of(held).push(whole@));
            assert(views_of(kept@) =~= alone + merged_groups(before, kv, l + 1, first));
            assert(kept_moves@ =~= alone_moves + Seq::new(
                group_count(kv, l + 1),
                |i: int| MovementType::NoMove,
            ));
        }
        l += 1;
    }
    *active = kept;
    *moves = kept_moves;
}

/// The cells of a group hold the cells of every member.
pub proof fn lemma_group_cells(
    objects: Seq<BlockObjectView>,
    keys: Seq<int>,
    l: int,
    upto: int,
    k: int,
    p: Point,
)
    requires
        0 <= upto <= objects.len(),
        keys.len() == objects.len(),
    ensures
        (0 <= k < upto && keys[k] == l && objects[k].cells.contains(p)) ==> group_cells(
            objects,
            keys,
            l,
            upto,
        ).contains(p),
        group_cells(objects, keys, l, upto).contains(p) ==> exists|m: int|
            0 <= m < upto && keys[m] == l && (#[trigger] objects[m]).cells.contains(p),
    decreases upto,
{
    if upto > 0 {
        lemma_group_cells(objects, keys, l, upto - 1, k, p);
        let rest = group_cells(objects, keys, l, upto - 1);
        let now = group_cells(objects, keys, l, upto);
        let last = objects[upto - 1].cells;
        if keys[upto - 1] == l {
            if rest.contains(p) {
                let i = choose|i: int| 0 <= i < rest.len() && rest[i] == p;
                assert(now[i] == p);
            }
            if last.contains(p) {
                let i = choose|i: int| 0 <= i < last.len() && last[i] == p;
                assert(now[rest.len() + i] == p);
            }
            if now.contains(p) {
                let i = choose|i: int| 0 <= i < now.len() && now[i] == p;
                if i < rest.len() {
                    assert(rest[i] == p);
                } else {
                    assert(last[i - rest.len()] == p);
                    assert(objects[upto - 1].cells.contains(p));
                }
            }
        }
    }
}

/// What the list after merging holds: every object of it is an object of the old list
/// that took no part, or the merged object of a group.
pub proof fn lemma_after_merging(
    objects: Seq<BlockObjectView>,
    keys: Seq<int>,
    upto: int,
    first_id: int,
)
    requires
        0 <= upto <= objects.len(),
        keys.len() == objects.len(),
    ensures
        forall|i: int|
            0 <= i < survivors(objects, keys, upto).len() ==> objects.contains(
                #[trigger] survivors(objects, keys, upto)[i],
            ),
        forall|i: int|
            0 <= i < merged_groups(objects, keys, upto, first_id).len() ==> exists|l: int|
                0 <= l < upto && keys[l] == l && (#[trigger] merged_groups(
                    objects,
                    keys,
                    upto,
                    first_id,
                )[i]) == merged_object(objects, keys, l, first_id + i),
    decreases upto,
{
    if upto > 0 {
        lemma_after_merging(objects, keys, upto - 1, first_id);
        let s0 = survivors(objects, keys, upto - 1);
        let s1 = survivors(objects, keys, upto);
        assert forall|i: int| 0 <= i < s1.len() implies objects.contains(#[trigger] s1[i]) by {
            if i < s0.len() {
                assert(s1[i] == s0[i]);
            } else {
                assert(s1[i] == objects[upto - 1]);
            }
        }
        let g0 = merged_groups(objects, keys, upto - 1, first_id);
        let g1 = merged_groups(objects, keys, upto, first_id);
        assert forall|i: int| 0 <= i < g1.len() implies exists|l: int|
            0 <= l < upto && keys[l] == l && (#[trigger] g1[i]) == merged_object(
                objects,
                keys,
                l,
                first_id + i,
            ) by {
            if i < g0.len() {
                assert(g1[i] == g0[i]);
                let l = choose|l: int|
                    0 <= l < upto - 1 && keys[l] == l && g0[i] == merged_object(
                        objects,
                        keys,
                        l,
                        first_id + i,
                    );
                assert(0 <= l < upto && keys[l] == l && g1[i] == merged_object(
                    objects,
                    keys,
                    l,
                    first_id + i,
                ));
            } else {
                assert(g1[i] == merged_object(objects, keys, upto - 1, first_id + i));
            }
        }
    }
}

/// Merging objects that have cells gives objects that have cells; there are as many
/// moves after it as objects, and no more objects than before.
pub proof fn lemma_merging_keeps_solid(
    objects: Seq<BlockObjectView>,
    moves: Seq<MovementType>,
    first_id: int,
)
    requires
        all_solid(objects),
    ensures
        all_solid(after_merging(objects, moves, first_id)),
        after_merging(objects, moves, first_id).len() == moves_after_merging(objects, moves).len(),
        groups_merging(objects, moves) <= objects.len(),
{
    let keys = leaders_of(boxes_of(objects), moves);
    let n = objects.len() as int;
    lemma_after_merging(objects, keys, n, first_id);
    lemma_merged_groups(objects, keys, n, first_id);
    lemma_moves_match(moves, objects, keys, n);
    let alone = survivors(objects, keys, n);
    let groups = merged_groups(objects, keys, n, first_id);
    let all = after_merging(objects, moves, first_id);
    assert forall|i: int| 0 <= i < all.len() implies (#[trigger] all[i]).cells.len() > 0 by {
        if i < alone.len() {
            assert(all[i] == alone[i]);
            assert(objects.contains(alone[i]));
            let k = choose|k: int| 0 <= k < objects.len() && objects[k] == alone[i];
        } else {
            let g = groups[i - alone.len()];
            assert(all[i] == g);
            let l = choose|l: int|
                0 <= l < n && keys[l] == l && g == merged_object(
                    objects,
                    keys,
                    l,
                    first_id + (i - alone.len()),
                );
            let p = objects[l].cells[0];
            assert(objects[l].cells.contains(p));
            lemma_group_cells(objects, keys, l, n, l, p);
        }
    }
}

/// As many moves survive as objects.
pub proof fn lemma_moves_match(
    moves: Seq<MovementType>,
    objects: Seq<BlockObjectView>,
    keys: Seq<int>,
    upto: int,
)
    ensures
        surviving_moves(moves, keys, upto).len() == survivors(objects, keys, upto).len(),
    decreases upto,
{
    if upto > 0 {
        lemma_moves_match(moves, objects, keys, upto - 1);
    }
}

} // verus!
