//! The start of a tick: whether the run is won, and the copies that the inputs send out.

use vstd::prelude::*;
use crate::block::{all_wf, views_of, BlockObject, BlockObjectMode, BlockObjectView};

verus! {

/// Every output has received what it expects.
pub open spec fn outputs_filled(objects: Seq<BlockObjectView>) -> bool {
    forall|i: int|
        0 <= i < objects.len() && (#[trigger] objects[i]).mode == BlockObjectMode::Output
            ==> objects[i].counter == 0
}

/// The object is an input that has copies left to send.
pub open spec fn spawns(b: BlockObjectView) -> bool {
    b.mode == BlockObjectMode::Input && b.counter > 0
}

/// The copy that an input sends onto the board: the same shape, in flight under the
/// identity `id`, marked as just moved so that no output takes it in the tick in which
/// it appears.
pub open spec fn spawned_copy(b: BlockObjectView, id: int) -> BlockObjectView {
    BlockObjectView { mode: BlockObjectMode::Processing, just_moved: true, id, ..b }
}

/// A placed object after the inputs have sent their copies: an input that sent one has
/// one less to send.
pub open spec fn after_spawn(b: BlockObjectView) -> BlockObjectView {
    if spawns(b) {
        BlockObjectView { counter: b.counter - 1, ..b }
    } else {
        b
    }
}

/// The function `after_spawn`, as a value.
pub open spec fn to_after_spawn() -> spec_fn(BlockObjectView) -> BlockObjectView {
    |b: BlockObjectView| after_spawn(b)
}

/// The copies that the inputs among `placed` send out, in the order of `placed`. The
/// copies get the identities from `first_id` on, one after the other.
pub open spec fn spawned_from(placed: Seq<BlockObjectView>, first_id: int) -> Seq<BlockObjectView>
    decreases placed.len(),
{
    if placed.len() == 0 {
        Seq::empty()
    } else {
        let rest = spawned_from(placed.drop_last(), first_id);
        if spawns(placed.last()) {
            rest.push(spawned_copy(placed.last(), first_id + rest.len()))
        } else {
            rest
        }
    }
}

/// The copies sent by a prefix that is one object longer; no more copies are sent than
/// there are objects.
pub proof fn lemma_spawned_step(placed: Seq<BlockObjectView>, first_id: int, i: int)
    requires
        0 <= i < placed.len(),
    ensures
        spawned_from(placed.take(i + 1), first_id) == if spawns(placed[i]) {
            spawned_from(placed.take(i), first_id).push(
                spawned_copy(placed[i], first_id + spawned_from(placed.take(i), first_id).len()),
            )
        } else {
            spawned_from(placed.take(i), first_id)
        },
        spawned_from(placed.take(i), first_id).len() <= i,
    decreases i,
{
    assert(placed.take(i + 1).drop_last() =~= placed.take(i));
    if i > 0 {
        lemma_spawned_step(placed, first_id, i - 1);
    }
}

/// What the copies are: each is the copy of an object of `placed`, and its identity is
/// `first_id` and its place among the copies.
pub proof fn lemma_spawned(placed: Seq<BlockObjectView>, first_id: int)
    ensures
        spawned_from(placed, first_id).len() <= placed.len(),
        forall|j: int|
            0 <= j < spawned_from(placed, first_id).len() ==> exists|k: int|
                0 <= k < placed.len() && (#[trigger] spawned_from(placed, first_id)[j])
                    == spawned_copy(placed[k], first_id + j),
    decreases placed.len(),
{
    if placed.len() > 0 {
        let front = placed.drop_last();
        lemma_spawned(front, first_id);
        let rest = spawned_from(front, first_id);
        let all = spawned_from(placed, first_id);
        assert forall|j: int| 0 <= j < all.len() implies exists|k: int|
            0 <= k < placed.len() && (#[trigger] all[j]) == spawned_copy(
                placed[k],
                first_id + j,
            ) by {
            if j < rest.len() {
                let k = choose|k: int|
                    0 <= k < front.len() && rest[j] == spawned_copy(front[k], first_id + j);
                assert(placed[k] == front[k]);
                assert(all[j] == rest[j]);
            } else {
                assert(all[j] == spawned_copy(placed[placed.len() - 1], first_id + j));
            }
        }
    }
}

/// Whether every output among the placed objects has a counter of zero.
pub fn all_outputs_filled(placed: &Vec<BlockObject>) -> (r: bool)
    ensures
        r == outputs_filled(views_of(placed@)),
{
    let n = placed.len();
    let mut i: usize = 0;
    while i < n
        invariant
            i <= n,
            n == placed.len(),
            forall|k: int|
                0 <= k < i && (#[trigger] views_of(placed@)[k]).mode == BlockObjectMode::Output
                    ==> views_of(placed@)[k].counter == 0,
        decreases n - i,
    {
        if placed[i].mode == BlockObjectMode::Output && placed[i].counter != 0 {
            assert(views_of(placed@)[i as int].counter != 0);
            return false;
        }
        i += 1;
    }
    true
}

/// Sends one copy of every input that has copies left onto the board, behind the objects
/// already in flight, and counts it off. The copies get the identities from `next_id` on,
/// which is moved past them.
pub fn spawn_inputs(
    placed: &mut Vec<BlockObject>,
    active: &mut Vec<BlockObject>,
    next_id: &mut i32,
)
    requires
        all_wf(old(placed)@),
        all_wf(old(active)@),
        *old(next_id) + old(placed).len() <= i32::MAX,
    ensures
        views_of(final(placed)@) == views_of(old(placed)@).map_values(to_after_spawn()),
        views_of(final(active)@) == views_of(old(active)@) + spawned_from(
            views_of(old(placed)@),
            *old(next_id) as int,
        ),
        *final(next_id) == *old(next_id) + spawned_from(
            views_of(old(placed)@),
            *old(next_id) as int,
        ).len(),
        all_wf(final(placed)@),
        all_wf(final(active)@),
{
    let ghost before = views_of(placed@);
    let ghost flying = views_of(active@);
    let ghost first = *next_id as int;
    let n = placed.len();
    let mut i: usize = 0;
    proof {
        assert(before.take(0) =~= Seq::<BlockObjectView>::empty());
        assert(views_of(active@) =~= flying + spawned_from(before.take(0), first));
    }
    while i < n
        invariant
            i <= n,
            n == placed.len(),
            before.len() == n,
            before == views_of(old(placed)@),
            flying == views_of(old(active)@),
            first == *old(next_id),
            first + n <= i32::MAX,
            all_wf(placed@),
            all_wf(active@),
            forall|k: int| 0 <= k < i ==> (#[trigger] placed@[k])@ == after_spawn(before[k]),
            forall|k: int| i <= k < n ==> (#[trigger] placed@[k])@ == before[k],
            views_of(active@) == flying + spawned_from(before.take(i as int), first),
            *next_id == first + spawned_from(before.take(i as int), first).len(),
        decreases n - i,
    {
        proof {
            lemma_spawned_step(before, first, i as int);
            assert(placed@[i as int]@ == before[i as int]);
        }
        if placed[i].mode == BlockObjectMode::Input && placed[i].counter > 0 {
            let mut copy = placed[i].clone();
            copy.mode = BlockObjectMode::Processing;
            copy.just_moved = true;
            copy.id = *next_id;
            *next_id = *next_id + 1;
            placed[i].counter = placed[i].counter - 1;
            assert(copy@ == spawned_copy(
                before[i as int],
                first + spawned_from(before.take(i as int), first).len(),
            ));
            let ghost waiting = active@;
            active.push(copy);
            assert(views_of(active@) =~= views_of(waiting).push(copy@));
            assert(views_of(active@) =~= flying + spawned_from(before.take(i + 1), first));
        }
        i += 1;
    }
    assert(before.take(n as int) =~= before);
    assert(views_of(placed@) =~= before.map_values(to_after_spawn()));
}

/// Clears the mark of a recent move on every object.
pub fn clear_just_moved(active: &mut Vec<BlockObject>)
    requires
        all_wf(old(active)@),
    ensures
        views_of(final(active)@) == views_of(old(active)@).map_values(to_rested()),
        all_wf(final(active)@),
{
    let ghost before = views_of(active@);
    let n = active.len();
    let mut i: usize = 0;
    while i < n
        invariant
            i <= n,
            n == active.len(),
            before.len() == n,
            all_wf(active@),
            forall|k: int| 0 <= k < i ==> (#[trigger] active@[k])@ == rested(before[k]),
            forall|k: int| i <= k < n ==> (#[trigger] active@[k])@ == before[k],
        decreases n - i,
    {
        active[i].just_moved = false;
        i += 1;
    }
    assert(views_of(active@) =~= before.map_values(to_rested()));
}

/// The object without the mark of a recent move.
pub open spec fn rested(b: BlockObjectView) -> BlockObjectView {
    BlockObjectView { just_moved: false, ..b }
}

/// The function `rested`, as a value.
pub open spec fn to_rested() -> spec_fn(BlockObjectView) -> BlockObjectView {
    |b: BlockObjectView| rested(b)
}

} // verus!
