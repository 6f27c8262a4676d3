//! The geometry of a rigid shape, stated over the sequence of grid points it covers.

use vstd::prelude::*;
use crate::helpers::Point;

verus! {

/// Every point moved by `(dx, dy)`.
pub open spec fn shift_cells(cells: Seq<Point>, dx: int, dy: int) -> Seq<Point> {
    cells.map_values(|p: Point| p.shift(dx, dy))
}

/// Every point after a quarter turn clockwise about `around`.
pub open spec fn turn_cells_cw(cells: Seq<Point>, around: Point) -> Seq<Point> {
    cells.map_values(|p: Point| p.turn_cw(around))
}

/// Every point after a quarter turn counterclockwise about `around`.
pub open spec fn turn_cells_ccw(cells: Seq<Point>, around: Point) -> Seq<Point> {
    cells.map_values(|p: Point| p.turn_ccw(around))
}

/// Every point of the sequence can be held in a `BoardPos`.
pub open spec fn cells_fit(cells: Seq<Point>) -> bool {
    forall|i: int| 0 <= i < cells.len() ==> (#[trigger] cells[i]).fits()
}

/// The x coordinates, in order.
pub open spec fn xs(cells: Seq<Point>) -> Seq<int> {
    cells.map_values(|p: Point| p.x)
}

/// The y coordinates, in order.
pub open spec fn ys(cells: Seq<Point>) -> Seq<int> {
    cells.map_values(|p: Point| p.y)
}

/// The smallest member of a non-empty sequence of integers.
pub open spec fn least(s: Seq<int>) -> int
    decreases s.len(),
{
    if s.len() == 0 {
        0
    } else if s.len() == 1 {
        s[0]
    } else {
        let m = least(s.drop_last());
        if s.last() < m {
            s.last()
        } else {
            m
        }
    }
}

/// The largest member of a non-empty sequence of integers.
pub open spec fn greatest(s: Seq<int>) -> int
    decreases s.len(),
{
    if s.len() == 0 {
        0
    } else if s.len() == 1 {
        s[0]
    } else {
        let m = greatest(s.drop_last());
        if s.last() > m {
            s.last()
        } else {
            m
        }
    }
}

/// The corner of the tight bounding box with the smallest coordinates.
pub open spec fn top_left_of(cells: Seq<Point>) -> Point {
    Point { x: least(xs(cells)), y: least(ys(cells)) }
}

/// The corner of the tight bounding box with the largest coordinates.
pub open spec fn bottom_right_of(cells: Seq<Point>) -> Point {
    Point { x: greatest(xs(cells)), y: greatest(ys(cells)) }
}

/// Two boxes, given by their corners, share at least one point.
pub open spec fn boxes_meet(tl1: Point, br1: Point, tl2: Point, br2: Point) -> bool {
    br1.x >= tl2.x && br2.x >= tl1.x && br1.y >= tl2.y && br2.y >= tl1.y
}

/// A point lies in the box with the given corners.
pub open spec fn in_box(p: Point, tl: Point, br: Point) -> bool {
    tl.x <= p.x <= br.x && tl.y <= p.y <= br.y
}

/// The two shapes have a cell in common.
pub open spec fn cells_overlap(a: Seq<Point>, b: Seq<Point>) -> bool {
    exists|p: Point| a.contains(p) && b.contains(p)
}

/// The two shapes cover the same cells, whatever the order and however often each is listed.
pub open spec fn same_cells(a: Seq<Point>, b: Seq<Point>) -> bool {
    a.to_set() =~= b.to_set()
}

/// The cells on the near side of a vertical seam: those with `x` at most `seam`.
pub open spec fn left_of_seam(cells: Seq<Point>, seam: int) -> Seq<Point> {
    cells.filter(|p: Point| p.x <= seam)
}

/// The cells on the far side of a vertical seam: those with `x` above `seam`.
pub open spec fn right_of_seam(cells: Seq<Point>, seam: int) -> Seq<Point> {
    cells.filter(|p: Point| p.x > seam)
}

/// The cells on the near side of a horizontal seam: those with `y` at most `seam`.
pub open spec fn above_seam(cells: Seq<Point>, seam: int) -> Seq<Point> {
    cells.filter(|p: Point| p.y <= seam)
}

/// The cells on the far side of a horizontal seam: those with `y` above `seam`.
pub open spec fn below_seam(cells: Seq<Point>, seam: int) -> Seq<Point> {
    cells.filter(|p: Point| p.y > seam)
}

/// Row `y` crosses the vertical seam between columns `x` and `x + 1`: the shape is solid on both sides.
pub open spec fn crosses_vert_seam(cells: Seq<Point>, x: int, y: int) -> bool {
    cells.contains(Point { x: x, y: y }) && cells.contains(Point { x: x + 1, y: y })
}

/// Column `x` crosses the horizontal seam between rows `y` and `y + 1`.
pub open spec fn crosses_hori_seam(cells: Seq<Point>, y: int, x: int) -> bool {
    cells.contains(Point { x: x, y: y }) && cells.contains(Point { x: x, y: y + 1 })
}

/// The rows that cross the vertical seam between columns `x` and `x + 1`, in the order
/// in which the first `upto` cells come upon them: each cell in column `x` whose
/// neighbour in column `x + 1` is covered adds its row, unless the row is listed already.
pub open spec fn vert_seam_rows(cells: Seq<Point>, x: int, upto: int) -> Seq<int>
    decreases upto,
{
    if upto <= 0 {
        Seq::empty()
    } else {
        let rest = vert_seam_rows(cells, x, upto - 1);
        let p = cells[upto - 1];
        if p.x == x && cells.contains(p.shift(1, 0)) && !rest.contains(p.y) {
            rest.push(p.y)
        } else {
            rest
        }
    }
}

/// The columns that cross the horizontal seam between rows `y` and `y + 1`, in the order
/// in which the first `upto` cells come upon them.
pub open spec fn hori_seam_columns(cells: Seq<Point>, y: int, upto: int) -> Seq<int>
    decreases upto,
{
    if upto <= 0 {
        Seq::empty()
    } else {
        let rest = hori_seam_columns(cells, y, upto - 1);
        let p = cells[upto - 1];
        if p.y == y && cells.contains(p.shift(0, 1)) && !rest.contains(p.x) {
            rest.push(p.x)
        } else {
            rest
        }
    }
}

/// `least` is a lower bound of the sequence and one of its members.
pub proof fn lemma_least(s: Seq<int>)
    requires
        s.len() > 0,
    ensures
        forall|i: int| 0 <= i < s.len() ==> least(s) <= #[trigger] s[i],
        exists|i: int| 0 <= i < s.len() && s[i] == least(s),
    decreases s.len(),
{
    if s.len() > 1 {
        let t = s.drop_last();
        lemma_least(t);
        let k = choose|k: int| 0 <= k < t.len() && t[k] == least(t);
        assert(s[k] == t[k]);
        assert forall|i: int| 0 <= i < s.len() implies least(s) <= #[trigger] s[i] by {
            if i < t.len() {
                assert(s[i] == t[i]);
            }
        }
        if s.last() < least(t) {
            assert(s[s.len() - 1] == least(s));
        } else {
            assert(s[k] == least(s));
        }
    } else {
        assert(s[0] == least(s));
    }
}

/// `greatest` is an upper bound of the sequence and one of its members.
pub proof fn lemma_greatest(s: Seq<int>)
    requires
        s.len() > 0,
    ensures
        forall|i: int| 0 <= i < s.len() ==> greatest(s) >= #[trigger] s[i],
        exists|i: int| 0 <= i < s.len() && s[i] == greatest(s),
    decreases s.len(),
{
    if s.len() > 1 {
        let t = s.drop_last();
        lemma_greatest(t);
        let k = choose|k: int| 0 <= k < t.len() && t[k] == greatest(t);
        assert(s[k] == t[k]);
        assert forall|i: int| 0 <= i < s.len() implies greatest(s) >= #[trigger] s[i] by {
            if i < t.len() {
                assert(s[i] == t[i]);
            }
        }
        if s.last() > greatest(t) {
            assert(s[s.len() - 1] == greatest(s));
        } else {
            assert(s[k] == greatest(s));
        }
    } else {
        assert(s[0] == greatest(s));
    }
}

/// A lower bound that is a member is the least member.
pub proof fn lemma_least_unique(s: Seq<int>, m: int)
    requires
        forall|i: int| 0 <= i < s.len() ==> m <= #[trigger] s[i],
        exists|i: int| 0 <= i < s.len() && s[i] == m,
    ensures
        m == least(s),
{
    lemma_least(s);
}

/// An upper bound that is a member is the greatest member.
pub proof fn lemma_greatest_unique(s: Seq<int>, m: int)
    requires
        forall|i: int| 0 <= i < s.len() ==> m >= #[trigger] s[i],
        exists|i: int| 0 <= i < s.len() && s[i] == m,
    ensures
        m == greatest(s),
{
    lemma_greatest(s);
}

/// Taking one more member into account: the least of a longer prefix.
pub proof fn lemma_least_step(s: Seq<int>, i: int)
    requires
        1 <= i < s.len(),
    ensures
        least(s.take(i + 1)) == if s[i] < least(s.take(i)) {
            s[i]
        } else {
            least(s.take(i))
        },
        least(s.take(1)) == s[0],
{
    assert(s.take(i + 1).drop_last() =~= s.take(i));
}

/// Taking one more member into account: the greatest of a longer prefix.
pub proof fn lemma_greatest_step(s: Seq<int>, i: int)
    requires
        1 <= i < s.len(),
    ensures
        greatest(s.take(i + 1)) == if s[i] > greatest(s.take(i)) {
            s[i]
        } else {
            greatest(s.take(i))
        },
        greatest(s.take(1)) == s[0],
{
    assert(s.take(i + 1).drop_last() =~= s.take(i));
}

/// Every cell of a shape lies inside its bounding box.
pub proof fn lemma_cells_in_box(cells: Seq<Point>)
    ensures
        forall|i: int|
            0 <= i < cells.len() ==> in_box(
                #[trigger] cells[i],
                top_left_of(cells),
                bottom_right_of(cells),
            ),
{
    if cells.len() > 0 {
        lemma_least(xs(cells));
        lemma_least(ys(cells));
        lemma_greatest(xs(cells));
        lemma_greatest(ys(cells));
        assert forall|i: int| 0 <= i < cells.len() implies in_box(
            #[trigger] cells[i],
            top_left_of(cells),
            bottom_right_of(cells),
        ) by {
            assert(xs(cells)[i] == cells[i].x);
            assert(ys(cells)[i] == cells[i].y);
        }
    }
}

/// The bounding box is tight: each of its four sides touches a cell.
pub proof fn lemma_box_is_tight(cells: Seq<Point>)
    requires
        cells.len() > 0,
    ensures
        exists|i: int| 0 <= i < cells.len() && cells[i].x == top_left_of(cells).x,
        exists|i: int| 0 <= i < cells.len() && cells[i].y == top_left_of(cells).y,
        exists|i: int| 0 <= i < cells.len() && cells[i].x == bottom_right_of(cells).x,
        exists|i: int| 0 <= i < cells.len() && cells[i].y == bottom_right_of(cells).y,
{
    lemma_least(xs(cells));
    lemma_least(ys(cells));
    lemma_greatest(xs(cells));
    lemma_greatest(ys(cells));
    let a = choose|i: int| 0 <= i < xs(cells).len() && xs(cells)[i] == least(xs(cells));
    assert(cells[a].x == top_left_of(cells).x);
    let b = choose|i: int| 0 <= i < ys(cells).len() && ys(cells)[i] == least(ys(cells));
    assert(cells[b].y == top_left_of(cells).y);
    let c = choose|i: int| 0 <= i < xs(cells).len() && xs(cells)[i] == greatest(xs(cells));
    assert(cells[c].x == bottom_right_of(cells).x);
    let d = choose|i: int| 0 <= i < ys(cells).len() && ys(cells)[i] == greatest(ys(cells));
    assert(cells[d].y == bottom_right_of(cells).y);
}

/// Moving a shape moves its bounding box by the same step.
pub proof fn lemma_shift_moves_box(cells: Seq<Point>, dx: int, dy: int)
    requires
        cells.len() > 0,
    ensures
        top_left_of(shift_cells(cells, dx, dy)) == top_left_of(cells).shift(dx, dy),
        bottom_right_of(shift_cells(cells, dx, dy)) == bottom_right_of(cells).shift(dx, dy),
{
    let moved = shift_cells(cells, dx, dy);
    lemma_least(xs(cells));
    lemma_least(ys(cells));
    lemma_greatest(xs(cells));
    lemma_greatest(ys(cells));
    let a = choose|i: int| 0 <= i < xs(cells).len() && xs(cells)[i] == least(xs(cells));
    let b = choose|i: int| 0 <= i < ys(cells).len() && ys(cells)[i] == least(ys(cells));
    let c = choose|i: int| 0 <= i < xs(cells).len() && xs(cells)[i] == greatest(xs(cells));
    let d = choose|i: int| 0 <= i < ys(cells).len() && ys(cells)[i] == greatest(ys(cells));
    assert forall|i: int| 0 <= i < xs(moved).len() implies least(xs(cells)) + dx <= #[trigger] xs(
        moved,
    )[i] && greatest(xs(cells)) + dx >= xs(moved)[i] by {
        assert(xs(moved)[i] == xs(cells)[i] + dx);
    }
    assert forall|i: int| 0 <= i < ys(moved).len() implies least(ys(cells)) + dy <= #[trigger] ys(
        moved,
    )[i] && greatest(ys(cells)) + dy >= ys(moved)[i] by {
        assert(ys(moved)[i] == ys(cells)[i] + dy);
    }
    assert(xs(moved)[a] == least(xs(cells)) + dx);
    assert(ys(moved)[b] == least(ys(cells)) + dy);
    assert(xs(moved)[c] == greatest(xs(cells)) + dx);
    assert(ys(moved)[d] == greatest(ys(cells)) + dy);
    lemma_least_unique(xs(moved), least(xs(cells)) + dx);
    lemma_least_unique(ys(moved), least(ys(cells)) + dy);
    lemma_greatest_unique(xs(moved), greatest(xs(cells)) + dx);
    lemma_greatest_unique(ys(moved), greatest(ys(cells)) + dy);
}

/// Four quarter turns clockwise about one pivot bring every cell back to where it was.
pub proof fn lemma_four_turns_cw(cells: Seq<Point>, around: Point)
    ensures
        turn_cells_cw(turn_cells_cw(turn_cells_cw(turn_cells_cw(cells, around), around), around), around)
            == cells,
        turn_cells_cw(turn_cells_cw(turn_cells_cw(turn_cells_cw(cells, around), around), around), around).to_set()
            == cells.to_set(),
{
    assert(turn_cells_cw(
        turn_cells_cw(turn_cells_cw(turn_cells_cw(cells, around), around), around),
        around,
    ) =~= cells);
}

/// A quarter turn clockwise and then one counterclockwise about the same pivot, or the other
/// way round, leave every cell where it was.
pub proof fn lemma_turn_cw_then_ccw(cells: Seq<Point>, around: Point)
    ensures
        turn_cells_ccw(turn_cells_cw(cells, around), around) == cells,
        turn_cells_cw(turn_cells_ccw(cells, around), around) == cells,
{
    assert(turn_cells_ccw(turn_cells_cw(cells, around), around) =~= cells);
    assert(turn_cells_cw(turn_cells_ccw(cells, around), around) =~= cells);
}

/// Moving a shape and then moving it back by the same step restores each cell and the
/// bounding box.
pub proof fn lemma_shift_and_back(cells: Seq<Point>, dx: int, dy: int)
    ensures
        shift_cells(shift_cells(cells, dx, dy), -dx, -dy) == cells,
        top_left_of(shift_cells(shift_cells(cells, dx, dy), -dx, -dy)) == top_left_of(cells),
        bottom_right_of(shift_cells(shift_cells(cells, dx, dy), -dx, -dy)) == bottom_right_of(
            cells,
        ),
{
    assert(shift_cells(shift_cells(cells, dx, dy), -dx, -dy) =~= cells);
}

/// Overlap does not depend on which shape is asked.
pub proof fn lemma_overlap_symmetric(a: Seq<Point>, b: Seq<Point>)
    ensures
        cells_overlap(a, b) == cells_overlap(b, a),
{
    if cells_overlap(a, b) {
        let p = choose|p: Point| a.contains(p) && b.contains(p);
        assert(b.contains(p) && a.contains(p));
    }
    if cells_overlap(b, a) {
        let p = choose|p: Point| b.contains(p) && a.contains(p);
        assert(a.contains(p) && b.contains(p));
    }
}

/// The two sides of a vertical seam, put together again, cover exactly the cells of the
/// whole shape, each as often as before.
pub proof fn lemma_split_vert_then_merge(cells: Seq<Point>, seam: int)
    ensures
        (left_of_seam(cells, seam) + right_of_seam(cells, seam)).to_set() == cells.to_set(),
        (left_of_seam(cells, seam) + right_of_seam(cells, seam)).to_multiset()
            == cells.to_multiset(),
{
    lemma_partition_keeps_cells(cells, |p: Point| p.x <= seam, |p: Point| p.x > seam);
}

/// The two sides of a horizontal seam, put together again, cover exactly the cells of the
/// whole shape, each as often as before.
pub proof fn lemma_split_hori_then_merge(cells: Seq<Point>, seam: int)
    ensures
        (above_seam(cells, seam) + below_seam(cells, seam)).to_set() == cells.to_set(),
        (above_seam(cells, seam) + below_seam(cells, seam)).to_multiset() == cells.to_multiset(),
{
    lemma_partition_keeps_cells(cells, |p: Point| p.y <= seam, |p: Point| p.y > seam);
}

/// Filtering by a test and by its negation parts a sequence into two that together hold
/// the same members.
pub proof fn lemma_partition_keeps_cells(
    cells: Seq<Point>,
    keep: spec_fn(Point) -> bool,
    leave: spec_fn(Point) -> bool,
)
    requires
        forall|p: Point| #[trigger] keep(p) == !leave(p),
    ensures
        (cells.filter(keep) + cells.filter(leave)).to_multiset() == cells.to_multiset(),
        (cells.filter(keep) + cells.filter(leave)).to_set() == cells.to_set(),
    decreases cells.len(),
{
    broadcast use vstd::seq_lib::group_to_multiset_ensures;

    reveal(Seq::filter);
    let joined = cells.filter(keep) + cells.filter(leave);
    if cells.len() == 0 {
        assert(joined =~= cells);
    } else {
        let front = cells.drop_last();
        let p = cells.last();
        lemma_partition_keeps_cells(front, keep, leave);
        let joined_front = front.filter(keep) + front.filter(leave);
        vstd::seq_lib::lemma_multiset_commutative(front.filter(keep), front.filter(leave));
        vstd::seq_lib::lemma_multiset_commutative(cells.filter(keep), cells.filter(leave));
        assert(cells =~= front.push(p));
        if keep(p) {
            assert(cells.filter(keep) == front.filter(keep).push(p));
            assert(cells.filter(leave) == front.filter(leave));
        } else {
            assert(cells.filter(keep) == front.filter(keep));
            assert(cells.filter(leave) == front.filter(leave).push(p));
        }
        assert(joined.to_multiset() =~= joined_front.to_multiset().insert(p));
        assert(cells.to_multiset() =~= front.to_multiset().insert(p));
    }
    assert(joined.to_set() =~= cells.to_set()) by {
        assert forall|q: Point| joined.to_set().contains(q) == cells.to_set().contains(q) by {
            assert(joined.to_multiset().count(q) == cells.to_multiset().count(q));
            assert(joined.contains(q) <==> joined.to_multiset().count(q) > 0);
            assert(cells.contains(q) <==> cells.to_multiset().count(q) > 0);
        }
    }
}

} // verus!
