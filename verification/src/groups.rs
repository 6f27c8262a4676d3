//! Which objects in flight merge: objects that push against each other, and all that
//! such pairs chain together, form one group.

use vstd::prelude::*;
use crate::helpers::{Direction, MovementType, Point};

verus! {

/// The bounding box of a shape: its corner with the smallest coordinates and its corner
/// with the largest.
pub struct Bounds {
    pub top_left: Point,
    pub bottom_right: Point,
}

/// The shape with bounds `a` and move `ma` pushes against the one with bounds `b` and
/// move `mb`: the first moves up and the second down, the second lies directly above the
/// first, and their columns meet; or the same with left, right and rows.
pub open spec fn facing(a: Bounds, ma: MovementType, b: Bounds, mb: MovementType) -> bool {
    match (ma, mb) {
        (
            MovementType::Translation(Direction::Up),
            MovementType::Translation(Direction::Down),
        ) => a.bottom_right.x >= b.top_left.x && b.bottom_right.x >= a.top_left.x
            && b.bottom_right.y == a.top_left.y - 1,
        (
            MovementType::Translation(Direction::Left),
            MovementType::Translation(Direction::Right),
        ) => a.bottom_right.y >= b.top_left.y && b.bottom_right.y >= a.top_left.y
            && b.bottom_right.x == a.top_left.x - 1,
        _ => false,
    }
}

/// Object `i` pushes against object `j`.
pub open spec fn meets(boxes: Seq<Bounds>, moves: Seq<MovementType>, i: int, j: int) -> bool {
    0 <= i < boxes.len() && 0 <= j < boxes.len() && facing(boxes[i], moves[i], boxes[j], moves[j])
}

/// One of the two objects pushes against the other.
pub open spec fn linked(boxes: Seq<Bounds>, moves: Seq<MovementType>, i: int, j: int) -> bool {
    meets(boxes, moves, i, j) || meets(boxes, moves, j, i)
}

/// Object `i` pushes against some object: it moves up or left into one that comes down
/// or right.
pub open spec fn leads(boxes: Seq<Bounds>, moves: Seq<MovementType>, i: int) -> bool {
    exists|j: int| meets(boxes, moves, i, j)
}

/// Object `k` takes part in a merge: it pushes against some object, or one against it.
pub open spec fn grouped(boxes: Seq<Bounds>, moves: Seq<MovementType>, k: int) -> bool {
    exists|j: int| linked(boxes, moves, k, j)
}

/// A list of objects of which each is linked to the next.
pub open spec fn is_chain(boxes: Seq<Bounds>, moves: Seq<MovementType>, chain: Seq<int>) -> bool {
    &&& chain.len() > 0
    &&& forall|t: int| 0 <= t < chain.len() ==> 0 <= #[trigger] chain[t] < boxes.len()
    &&& forall|t: int|
        0 <= t < chain.len() - 1 ==> linked(boxes, moves, #[trigger] chain[t], chain[t + 1])
}

/// A chain of linked objects leads from `a` to `b`: the two merge into one object.
pub open spec fn connected(boxes: Seq<Bounds>, moves: Seq<MovementType>, a: int, b: int) -> bool {
    exists|chain: Seq<int>| #[trigger]
        is_chain(boxes, moves, chain) && chain[0] == a && chain.last() == b
}

/// `l` is the leader of the group of `k`: of the objects of the group that push against
/// another, the one that stands first in the list.
pub open spec fn is_leader_of(boxes: Seq<Bounds>, moves: Seq<MovementType>, l: int, k: int) -> bool {
    &&& leads(boxes, moves, l)
    &&& connected(boxes, moves, k, l)
    &&& forall|i: int|
        leads(boxes, moves, i) && #[trigger] connected(boxes, moves, k, i) ==> l <= i
}

/// The leader of the group of `k`; the number of objects for an object that takes no
/// part in a merge.
pub open spec fn leader_of(boxes: Seq<Bounds>, moves: Seq<MovementType>, k: int) -> int {
    if grouped(boxes, moves, k) {
        choose|l: int| is_leader_of(boxes, moves, l, k)
    } else {
        boxes.len() as int
    }
}

/// The leader of every object, in the order of the list.
pub open spec fn leaders_of(boxes: Seq<Bounds>, moves: Seq<MovementType>) -> Seq<int> {
    Seq::new(boxes.len(), |k: int| leader_of(boxes, moves, k))
}

/// Every object is connected to itself.
pub proof fn lemma_connected_self(boxes: Seq<Bounds>, moves: Seq<MovementType>, a: int)
    requires
        0 <= a < boxes.len(),
    ensures
        connected(boxes, moves, a, a),
{
    let chain = seq![a];
    assert(is_chain(boxes, moves, chain) && chain[0] == a && chain.last() == a);
}

/// Linked objects are connected.
pub proof fn lemma_connected_linked(boxes: Seq<Bounds>, moves: Seq<MovementType>, a: int, b: int)
    requires
        linked(boxes, moves, a, b),
    ensures
        connected(boxes, moves, a, b),
        connected(boxes, moves, b, a),
{
    let chain = seq![a, b];
    assert(is_chain(boxes, moves, chain) && chain[0] == a && chain.last() == b);
    let back = seq![b, a];
    assert(is_chain(boxes, moves, back) && back[0] == b && back.last() == a);
}

/// What is connected to a connected object is connected.
pub proof fn lemma_connected_trans(
    boxes: Seq<Bounds>,
    moves: Seq<MovementType>,
    a: int,
    b: int,
    c: int,
)
    requires
        connected(boxes, moves, a, b),
        connected(boxes, moves, b, c),
    ensures
        connected(boxes, moves, a, c),
{
    let first = choose|chain: Seq<int>| #[trigger]
        is_chain(boxes, moves, chain) && chain[0] == a && chain.last() == b;
    let second = choose|chain: Seq<int>| #[trigger]
        is_chain(boxes, moves, chain) && chain[0] == b && chain.last() == c;
    let joined = first + second.drop_first();
    assert forall|t: int| 0 <= t < joined.len() implies 0 <= #[trigger] joined[t] < boxes.len() by {
        if t >= first.len() {
            assert(joined[t] == second[t - first.len() + 1]);
        }
    }
    assert forall|t: int| 0 <= t < joined.len() - 1 implies linked(
        boxes,
        moves,
        #[trigger] joined[t],
        joined[t + 1],
    ) by {
        if t < first.len() - 1 {
            assert(joined[t] == first[t] && joined[t + 1] == first[t + 1]);
        } else if t == first.len() - 1 {
            assert(joined[t] == second[0]);
            assert(joined[t + 1] == second[1]);
        } else {
            let u = t - first.len() + 1;
            assert(joined[t] == second[u] && joined[t + 1] == second[u + 1]);
        }
    }
    assert(is_chain(boxes, moves, joined) && joined[0] == a && joined.last() == c);
}

/// Connection goes both ways.
pub proof fn lemma_connected_back(boxes: Seq<Bounds>, moves: Seq<MovementType>, a: int, b: int)
    requires
        connected(boxes, moves, a, b),
    ensures
        connected(boxes, moves, b, a),
{
    let chain = choose|chain: Seq<int>| #[trigger]
        is_chain(boxes, moves, chain) && chain[0] == a && chain.last() == b;
    let back = chain.reverse();
    assert forall|t: int| 0 <= t < back.len() - 1 implies linked(
        boxes,
        moves,
        #[trigger] back[t],
        back[t + 1],
    ) by {
        let u = chain.len() - 2 - t;
        assert(back[t] == chain[u + 1] && back[t + 1] == chain[u]);
        assert(linked(boxes, moves, chain[u], chain[u + 1]));
    }
    assert(is_chain(boxes, moves, back) && back[0] == b && back.last() == a);
}

/// Keys that linked objects share are shared along every chain.
pub proof fn lemma_chain_shares_key(
    boxes: Seq<Bounds>,
    moves: Seq<MovementType>,
    keys: Seq<int>,
    chain: Seq<int>,
)
    requires
        keys.len() == boxes.len(),
        is_chain(boxes, moves, chain),
        forall|i: int, j: int| #[trigger] meets(boxes, moves, i, j) ==> keys[i] == keys[j],
    ensures
        keys[chain[0]] == keys[chain.last()],
    decreases chain.len(),
{
    if chain.len() > 1 {
        let front = chain.drop_last();
        assert forall|t: int| 0 <= t < front.len() - 1 implies linked(
            boxes,
            moves,
            #[trigger] front[t],
            front[t + 1],
        ) by {
            assert(front[t] == chain[t] && front[t + 1] == chain[t + 1]);
        }
        assert(is_chain(boxes, moves, front));
        lemma_chain_shares_key(boxes, moves, keys, front);
        let t = chain.len() - 2;
        assert(linked(boxes, moves, chain[t], chain[t + 1]));
        assert(front.last() == chain[t]);
    }
}

/// Keys are the leaders if no key is out of bounds, every key below the number of objects
/// names a pushing object connected to its owner, no pushing object has a key above its
/// own place, objects that take no part have the number of objects for a key, and objects
/// that push against each other share their key.
pub proof fn lemma_keys_are_leaders(boxes: Seq<Bounds>, moves: Seq<MovementType>, keys: Seq<int>)
    requires
        keys.len() == boxes.len(),
        forall|k: int|
            0 <= k < keys.len() ==> 0 <= #[trigger] keys[k] <= keys.len() && (keys[k] < keys.len()
                ==> leads(boxes, moves, keys[k]) && connected(boxes, moves, k, keys[k])),
        forall|k: int| 0 <= k < keys.len() && leads(boxes, moves, k) ==> #[trigger] keys[k] <= k,
        forall|k: int|
            0 <= k < keys.len() && !grouped(boxes, moves, k) ==> #[trigger] keys[k] == keys.len(),
        forall|i: int, j: int| #[trigger] meets(boxes, moves, i, j) ==> keys[i] == keys[j],
    ensures
        keys == leaders_of(boxes, moves),
{
    assert forall|k: int| 0 <= k < keys.len() implies keys[k] == leader_of(boxes, moves, k) by {
        if grouped(boxes, moves, k) {
            let j = choose|j: int| linked(boxes, moves, k, j);
            let f = if meets(boxes, moves, k, j) {
                k
            } else {
                j
            };
            assert(leads(boxes, moves, f)) by {
                if meets(boxes, moves, k, j) {
                    assert(meets(boxes, moves, f, j));
                } else {
                    assert(meets(boxes, moves, f, k));
                }
            }
            assert(keys[f] <= f);
            assert(keys[k] == keys[j]);
            let l = keys[k];
            assert(is_leader_of(boxes, moves, l, k)) by {
                assert forall|i: int|
                    leads(boxes, moves, i) && #[trigger] connected(boxes, moves, k, i) implies l
                    <= i by {
                    let chain = choose|chain: Seq<int>| #[trigger]
                        is_chain(boxes, moves, chain) && chain[0] == k && chain.last() == i;
                    lemma_chain_shares_key(boxes, moves, keys, chain);
                    assert(0 <= chain[chain.len() - 1] < boxes.len());
                    assert(keys[i] <= i);
                }
            }
            let c = choose|l: int| is_leader_of(boxes, moves, l, k);
            assert(is_leader_of(boxes, moves, c, k));
            assert(c <= l && l <= c);
        }
    }
    assert(keys =~= leaders_of(boxes, moves));
}

/// What the leaders are like: an object that takes no part has the number of objects for
/// its leader; the leader of any other is an object of its group that is its own leader.
pub proof fn lemma_leaders(boxes: Seq<Bounds>, moves: Seq<MovementType>, k: int)
    requires
        0 <= k < boxes.len(),
    ensures
        0 <= leader_of(boxes, moves, k) <= boxes.len(),
        grouped(boxes, moves, k) <==> leader_of(boxes, moves, k) < boxes.len(),
        grouped(boxes, moves, k) ==> is_leader_of(boxes, moves, leader_of(boxes, moves, k), k)
            && leader_of(boxes, moves, leader_of(boxes, moves, k)) == leader_of(
            boxes,
            moves,
            k,
        ),
{
    if grouped(boxes, moves, k) {
        lemma_leader_exists(boxes, moves, k);
        let l = leader_of(boxes, moves, k);
        assert(is_leader_of(boxes, moves, l, k));
        let j = choose|j: int| meets(boxes, moves, l, j);
        assert(linked(boxes, moves, l, j));
        assert(grouped(boxes, moves, l));
        lemma_leader_exists(boxes, moves, l);
        let ll = leader_of(boxes, moves, l);
        assert(is_leader_of(boxes, moves, ll, l));
        // the leader of `l` is connected to `k`, and `l` to itself
        lemma_connected_self(boxes, moves, l);
        lemma_connected_trans(boxes, moves, k, l, ll);
        assert(ll <= l);
        assert(l <= ll);
    }
}

/// Merging is transitive: objects that a chain of pushing pairs connects have one leader,
/// and so become one object.
pub proof fn lemma_connected_share_leader(
    boxes: Seq<Bounds>,
    moves: Seq<MovementType>,
    a: int,
    b: int,
)
    requires
        connected(boxes, moves, a, b),
    ensures
        leader_of(boxes, moves, a) == leader_of(boxes, moves, b),
        a != b ==> grouped(boxes, moves, a) && grouped(boxes, moves, b),
{
    if a != b {
        let chain = choose|chain: Seq<int>| #[trigger]
            is_chain(boxes, moves, chain) && chain[0] == a && chain.last() == b;
        assert(chain.len() >= 2);
        assert(linked(boxes, moves, chain[0], chain[1]));
        let t = chain.len() - 2;
        assert(linked(boxes, moves, chain[t], chain[t + 1]));
        assert(linked(boxes, moves, b, chain[t]));
        assert(grouped(boxes, moves, a));
        assert(grouped(boxes, moves, b));
        lemma_leader_exists(boxes, moves, a);
        lemma_leader_exists(boxes, moves, b);
        let la = leader_of(boxes, moves, a);
        let lb = leader_of(boxes, moves, b);
        assert(is_leader_of(boxes, moves, la, a));
        assert(is_leader_of(boxes, moves, lb, b));
        lemma_connected_back(boxes, moves, a, b);
        lemma_connected_trans(boxes, moves, b, a, la);
        lemma_connected_trans(boxes, moves, a, b, lb);
        assert(lb <= la);
        assert(la <= lb);
    }
}

/// Every object that takes part in a merge has a leader.
pub proof fn lemma_leader_exists(boxes: Seq<Bounds>, moves: Seq<MovementType>, k: int)
    requires
        grouped(boxes, moves, k),
    ensures
        exists|l: int| is_leader_of(boxes, moves, l, k),
        0 <= k < boxes.len(),
{
    let j = choose|j: int| linked(boxes, moves, k, j);
    let f = if meets(boxes, moves, k, j) {
        k
    } else {
        j
    };
    if meets(boxes, moves, k, j) {
        assert(meets(boxes, moves, f, j));
    } else {
        assert(meets(boxes, moves, f, k));
    }
    assert(leads(boxes, moves, f));
    lemma_connected_linked(boxes, moves, k, j);
    lemma_connected_self(boxes, moves, k);
    assert(connected(boxes, moves, k, f));
    lemma_least_leader(boxes, moves, k, f);
}

/// Among the pushing objects connected to `k` there is a first, given that `f` is one.
proof fn lemma_least_leader(boxes: Seq<Bounds>, moves: Seq<MovementType>, k: int, f: int)
    requires
        leads(boxes, moves, f),
        connected(boxes, moves, k, f),
        0 <= f,
    ensures
        exists|l: int| is_leader_of(boxes, moves, l, k),
    decreases f,
{
    if exists|i: int| leads(boxes, moves, i) && #[trigger] connected(boxes, moves, k, i) && i < f {
        let i = choose|i: int|
            leads(boxes, moves, i) && #[trigger] connected(boxes, moves, k, i) && i < f;
        let j = choose|j: int| meets(boxes, moves, i, j);
        lemma_least_leader(boxes, moves, k, i);
    } else {
        assert(is_leader_of(boxes, moves, f, k));
    }
}

/// The sum of the members.
pub open spec fn total(keys: Seq<int>) -> int
    decreases keys.len(),
{
    if keys.len() == 0 {
        0
    } else {
        total(keys.drop_last()) + keys.last()
    }
}

/// Replacing one member changes the sum by the difference.
pub proof fn lemma_total_update(keys: Seq<int>, i: int, v: int)
    requires
        0 <= i < keys.len(),
    ensures
        total(keys.update(i, v)) == total(keys) - keys[i] + v,
    decreases keys.len(),
{
    let changed = keys.update(i, v);
    if i == keys.len() - 1 {
        assert(changed.drop_last() =~= keys.drop_last());
    } else {
        assert(changed.drop_last() =~= keys.drop_last().update(i, v));
        lemma_total_update(keys.drop_last(), i, v);
    }
}

/// A sum of members that are not negative is not negative.
pub proof fn lemma_total_floor(keys: Seq<int>)
    requires
        forall|i: int| 0 <= i < keys.len() ==> 0 <= #[trigger] keys[i],
    ensures
        0 <= total(keys),
    decreases keys.len(),
{
    if keys.len() > 0 {
        assert forall|i: int| 0 <= i < keys.drop_last().len() implies 0
            <= #[trigger] keys.drop_last()[i] by {
            assert(keys.drop_last()[i] == keys[i]);
        }
        lemma_total_floor(keys.drop_last());
    }
}

} // verus!
