//! The end of a tick: outputs take in the resting objects that fill them exactly.

use vstd::prelude::*;
use crate::block::{
    all_wf, views_of, BlockObject, BlockObjectAnimation, BlockObjectMode, BlockObjectView,
};
use crate::cells::same_cells;
use crate::seqs::{lemma_filter_start, lemma_filter_step};

verus! {

/// The placed object `out` is an output whose cells are exactly those of `b`.
pub open spec fn takes(out: BlockObjectView, b: BlockObjectView) -> bool {
    out.mode == BlockObjectMode::Output && same_cells(out.cells, b.cells)
}

/// The place of the first output that takes `b`; the number of placed objects if none does.
pub open spec fn first_taker(placed: Seq<BlockObjectView>, b: BlockObjectView) -> int
    decreases placed.len(),
{
    if placed.len() == 0 {
        0
    } else if takes(placed[0], b) {
        0
    } else {
        1 + first_taker(placed.drop_first(), b)
    }
}

/// The object leaves the board at the end of the tick: it did not just move, and an
/// output takes it.
pub open spec fn taken(placed: Seq<BlockObjectView>, b: BlockObjectView) -> bool {
    !b.just_moved && first_taker(placed, b) < placed.len()
}

/// The test "stays on the board", as a value.
pub open spec fn stays(placed: Seq<BlockObjectView>) -> spec_fn(BlockObjectView) -> bool {
    |b: BlockObjectView| !taken(placed, b)
}

/// An output after it has taken an object in: it expects one less, and shows the arrival.
pub open spec fn after_arrival(out: BlockObjectView) -> BlockObjectView {
    BlockObjectView { counter: out.counter - 1, anim: BlockObjectAnimation::Output, ..out }
}

/// What the outputs have taken in once the first `upto` objects in flight have been
/// looked at, one after the other.
pub struct Intake {
    /// The placed objects, with what the outputs still expect.
    pub placed: Seq<BlockObjectView>,
    /// The output that was offered an object when it expected no more, if there was one.
    /// Nothing is taken in after that.
    pub overfull: Option<int>,
}

/// The intake of the first `upto` objects in flight.
pub open spec fn intake(placed: Seq<BlockObjectView>, active: Seq<BlockObjectView>, upto: int) -> Intake
    decreases upto,
{
    if upto <= 0 {
        Intake { placed, overfull: None }
    } else {
        let so_far = intake(placed, active, upto - 1);
        let b = active[upto - 1];
        let o = first_taker(placed, b);
        if so_far.overfull is Some || !taken(placed, b) {
            so_far
        } else if so_far.placed[o].counter <= 0 {
            Intake { placed: so_far.placed, overfull: Some(o) }
        } else {
            Intake { placed: so_far.placed.update(o, after_arrival(so_far.placed[o])), overfull: None }
        }
    }
}

/// The objects in flight after the intake: those that no output took.
pub open spec fn after_intake(placed: Seq<BlockObjectView>, active: Seq<BlockObjectView>) -> Seq<
    BlockObjectView,
> {
    active.filter(stays(placed))
}

/// `first_taker` is the place before which no placed object takes `b` and at which,
/// unless it is the end of the list, one does.
pub proof fn lemma_first_taker(placed: Seq<BlockObjectView>, b: BlockObjectView, i: int)
    requires
        0 <= i <= placed.len(),
        forall|k: int| 0 <= k < i ==> !takes(#[trigger] placed[k], b),
        i < placed.len() ==> takes(placed[i], b),
    ensures
        first_taker(placed, b) == i,
    decreases placed.len(),
{
    if placed.len() > 0 && i > 0 {
        let rest = placed.drop_first();
        assert forall|k: int| 0 <= k < i - 1 implies !takes(#[trigger] rest[k], b) by {
            assert(rest[k] == placed[k + 1]);
        }
        assert(!takes(placed[0], b));
        lemma_first_taker(rest, b, i - 1);
    }
}

/// The reverse: what `first_taker` says of the list.
pub proof fn lemma_first_taker_found(placed: Seq<BlockObjectView>, b: BlockObjectView)
    ensures
        0 <= first_taker(placed, b) <= placed.len(),
        forall|k: int| 0 <= k < first_taker(placed, b) ==> !takes(#[trigger] placed[k], b),
        first_taker(placed, b) < placed.len() ==> takes(placed[first_taker(placed, b)], b),
    decreases placed.len(),
{
    if placed.len() > 0 && !takes(placed[0], b) {
        let rest = placed.drop_first();
        lemma_first_taker_found(rest, b);
        assert forall|k: int| 0 <= k < first_taker(placed, b) implies !takes(
            #[trigger] placed[k],
            b,
        ) by {
            if k > 0 {
                assert(placed[k] == rest[k - 1]);
            }
        }
        if first_taker(placed, b) < placed.len() {
            assert(placed[first_taker(placed, b)] == rest[first_taker(rest, b)]);
        }
    }
}

/// The modes and the cells of the placed objects do not change while outputs take objects in.
pub open spec fn same_slots(a: Seq<BlockObjectView>, b: Seq<BlockObjectView>) -> bool {
    a.len() == b.len() && forall|k: int|
        0 <= k < a.len() ==> (#[trigger] a[k]).mode == b[k].mode && a[k].cells == b[k].cells
}

/// The place of the first output that takes `object`, if one does.
fn find_taker(placed: &mut Vec<BlockObject>, object: &mut BlockObject) -> (r: Option<usize>)
    requires
        all_wf(old(placed)@),
        old(object).wf(),
    ensures
        r matches Some(o) ==> o < old(placed).len() && first_taker(
            views_of(old(placed)@),
            old(object)@,
        ) == o,
        r is None ==> first_taker(views_of(old(placed)@), old(object)@) == old(placed).len(),
        views_of(final(placed)@) == views_of(old(placed)@),
        final(object)@ == old(object)@,
        all_wf(final(placed)@),
        final(object).wf(),
{
    let ghost before = views_of(placed@);
    let n = placed.len();
    let mut o: usize = 0;
    while o < n
        invariant
            o <= n,
            n == placed.len(),
            before.len() == n,
            before == views_of(old(placed)@),
            all_wf(placed@),
            object.wf(),
            object@ == old(object)@,
            forall|k: int| 0 <= k < n ==> (#[trigger] placed@[k])@ == before[k],
            forall|k: int| 0 <= k < o ==> !takes(#[trigger] before[k], object@),
        decreases n - o,
    {
        assert(placed@[o as int]@ == before[o as int]);
        if placed[o].mode == BlockObjectMode::Output && placed[o].exact_overlap(object) {
            proof {
                lemma_first_taker(before, object@, o as int);
                assert(views_of(placed@) =~= before);
            }
            return Some(o);
        }
        o += 1;
    }
    proof {
        lemma_first_taker(before, object@, n as int);
        assert(views_of(placed@) =~= before);
    }
    None
}

/// Lets every output take in the resting object that fills it exactly, object after
/// object in the order of the list, and takes those objects off the board. An output that
/// expects no more and is offered one stops the intake: the result is its place, and no
/// object leaves the board.
pub fn take_outputs(placed: &mut Vec<BlockObject>, active: &mut Vec<BlockObject>) -> (r: Result<
    (),
    usize,
>)
    requires
        all_wf(old(placed)@),
        all_wf(old(active)@),
    ensures
        views_of(final(placed)@) == intake(
            views_of(old(placed)@),
            views_of(old(active)@),
            old(active).len() as int,
        ).placed,
        r matches Err(o) ==> o < old(placed).len() && intake(
            views_of(old(placed)@),
            views_of(old(active)@),
            old(active).len() as int,
        ).overfull == Some(o as int) && views_of(final(active)@) == views_of(old(active)@),
        r is Ok ==> intake(
            views_of(old(placed)@),
            views_of(old(active)@),
            old(active).len() as int,
        ).overfull is None && views_of(final(active)@) == after_intake(
            views_of(old(placed)@),
            views_of(old(active)@),
        ),
        all_wf(final(placed)@),
        all_wf(final(active)@),
        final(placed).len() == old(placed).len(),
{
    let ghost slots = views_of(placed@);
    let ghost flying = views_of(active@);
    let mut kept: Vec<BlockObject> = Vec::new();
    let n = active.len();
    let mut i: usize = 0;
    proof {
        lemma_filter_start(flying, stays(slots));
        assert(views_of(kept@) =~= flying.take(0).filter(stays(slots)));
    }
    while i < n
        invariant
            i <= n,
            n == active.len(),
            flying.len() == n,
            slots == views_of(old(placed)@),
            flying == views_of(old(active)@),
            placed.len() == slots.len(),
            all_wf(placed@),
            all_wf(active@),
            all_wf(kept@),
            forall|k: int| 0 <= k < n ==> (#[trigger] active@[k])@ == flying[k],
            intake(slots, flying, i as int).overfull is None,
            views_of(placed@) == intake(slots, flying, i as int).placed,
            same_slots(slots, views_of(placed@)),
            views_of(kept@) == flying.take(i as int).filter(stays(slots)),
        decreases n - i,
    {
        let ghost now = views_of(placed@);
        let ghost b = flying[i as int];
        proof {
            assert(active@[i as int]@ == b);
            lemma_filter_step(flying, stays(slots), i as int);
            lemma_same_slots_same_taker(slots, now, b);
        }
        let found = if active[i].just_moved {
            None
        } else {
            find_taker(placed, &mut active[i])
        };
        assert(views_of(placed@) == now);
        match found {
            Some(o) => {
                assert(now[o as int] == placed@[o as int]@);
                if placed[o].counter <= 0 {
                    proof {
                        assert(views_of(active@) =~= flying);
                        lemma_intake_stops(slots, flying, i as int + 1, n as int);
                    }
                    return Err(o);
                }
                placed[o].counter = placed[o].counter - 1;
                placed[o].anim = BlockObjectAnimation::Output;
                proof {
                    assert(views_of(placed@) =~= now.update(o as int, after_arrival(now[o as int])));
                }
            },
            None => {
                let ghost held = kept@;
                let copy = active[i].clone();
                kept.push(copy);
                assert(views_of(kept@) =~= views_of(held).push(b));
            },
        }
        i += 1;
    }
    proof {
        assert(flying.take(n as int) =~= flying);
    }
    *active = kept;
    Ok(())
}

/// Which output takes an object depends on the modes and the cells of the placed objects alone.
pub proof fn lemma_same_slots_same_taker(
    a: Seq<BlockObjectView>,
    b: Seq<BlockObjectView>,
    object: BlockObjectView,
)
    requires
        same_slots(a, b),
    ensures
        first_taker(a, object) == first_taker(b, object),
    decreases a.len(),
{
    if a.len() > 0 {
        assert(a[0].mode == b[0].mode && a[0].cells == b[0].cells);
        if !takes(a[0], object) {
            assert forall|k: int| 0 <= k < a.drop_first().len() implies (
            #[trigger] a.drop_first()[k]).mode == b.drop_first()[k].mode && a.drop_first()[k].cells
                == b.drop_first()[k].cells by {
                assert(a.drop_first()[k] == a[k + 1]);
                assert(b.drop_first()[k] == b[k + 1]);
            }
            lemma_same_slots_same_taker(a.drop_first(), b.drop_first(), object);
        }
    }
}

/// Once an output was overfull, the intake stays as it is.
pub proof fn lemma_intake_stops(
    placed: Seq<BlockObjectView>,
    active: Seq<BlockObjectView>,
    at: int,
    upto: int,
)
    requires
        0 <= at <= upto,
        intake(placed, active, at).overfull is Some,
    ensures
        intake(placed, active, upto) == intake(placed, active, at),
    decreases upto - at,
{
    if at < upto {
        lemma_intake_stops(placed, active, at, upto - 1);
    }
}

/// The intake changes neither the number nor the modes nor the cells of the placed objects.
pub proof fn lemma_intake_keeps_slots(
    placed: Seq<BlockObjectView>,
    active: Seq<BlockObjectView>,
    upto: int,
)
    ensures
        same_slots(placed, intake(placed, active, upto).placed),
        intake(placed, active, upto).overfull matches Some(o) ==> 0 <= o < placed.len(),
    decreases upto,
{
    if upto > 0 {
        lemma_intake_keeps_slots(placed, active, upto - 1);
        lemma_first_taker_found(placed, active[upto - 1]);
    }
}

} // verus!
