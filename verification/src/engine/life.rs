//! The mathematical model of the game: what an alive set is, and which cells
//! are alive one generation later.

use crate::pos::{pos_le, pos_lt, Pos2};
use vstd::prelude::*;

verus! {

/// The sequence is strictly increasing in row-major order, so nothing occurs twice.
pub open spec fn strictly_sorted(s: Seq<Pos2>) -> bool {
    forall|i: int, j: int| 0 <= i < j < s.len() ==> pos_lt(#[trigger] s[i], #[trigger] s[j])
}

/// The cell at column `x` of row `y` is alive.
pub open spec fn alive_at(s: Seq<Pos2>, x: int, y: int) -> bool {
    exists|i: int| 0 <= i < s.len() && (#[trigger] s[i]).x == x && s[i].y == y
}

/// 1 where the cell is alive, 0 where it is dead.
pub open spec fn cell(s: Seq<Pos2>, x: int, y: int) -> int {
    if alive_at(s, x, y) {
        1
    } else {
        0
    }
}

/// The number of alive cells among the eight around `(x, y)`.
pub open spec fn neighbors(s: Seq<Pos2>, x: int, y: int) -> int {
    cell(s, x - 1, y - 1) + cell(s, x, y - 1) + cell(s, x + 1, y - 1) + cell(s, x - 1, y) + cell(
        s,
        x + 1,
        y,
    ) + cell(s, x - 1, y + 1) + cell(s, x, y + 1) + cell(s, x + 1, y + 1)
}

/// The cell `(x, y)` is alive in the generation after `s`: it has three alive
/// neighbours, or it is alive and has two.
pub open spec fn lives_next(s: Seq<Pos2>, x: int, y: int) -> bool {
    neighbors(s, x, y) == 3 || (alive_at(s, x, y) && neighbors(s, x, y) == 2)
}

/// `after` is the generation that follows `before`: the strictly sorted sequence
/// of exactly the cells that live next.
pub open spec fn is_next_generation(before: Seq<Pos2>, after: Seq<Pos2>) -> bool {
    &&& strictly_sorted(after)
    &&& forall|x: int, y: int| #[trigger] alive_at(after, x, y) <==> lives_next(before, x, y)
}

/// The generation that follows `before`.
pub open spec fn next_generation_of(before: Seq<Pos2>) -> Seq<Pos2> {
    choose|after: Seq<Pos2>| is_next_generation(before, after)
}

/// `(ax, ay)` comes strictly before `(bx, by)` in row-major order.
pub open spec fn precedes(ax: int, ay: int, bx: int, by: int) -> bool {
    ay < by || (ay == by && ax < bx)
}

/// `k` elements of `s` are at or before `p`, and they are its first `k`.
pub open spec fn splits_at(s: Seq<Pos2>, p: Pos2, k: int) -> bool {
    &&& 0 <= k <= s.len()
    &&& forall|i: int| 0 <= i < k ==> pos_le(#[trigger] s[i], p)
    &&& forall|i: int| k <= i < s.len() ==> pos_lt(p, #[trigger] s[i])
}

/// The cells `(x, y)`, `(x - 1, y)`, .. of the `d` columns that end at `x`, as
/// a number: bit `k` is set where the cell `(x - k, y)` is alive.
#[verifier::opaque]
pub open spec fn partial_bits(s: Seq<Pos2>, x: int, y: int, d: int) -> int {
    (if d > 0 { cell(s, x, y) } else { 0 })
    + (if d > 1 { 2 * cell(s, x - 1, y) } else { 0 })
    + (if d > 2 { 4 * cell(s, x - 2, y) } else { 0 })
    + (if d > 3 { 8 * cell(s, x - 3, y) } else { 0 })
    + (if d > 4 { 16 * cell(s, x - 4, y) } else { 0 })
    + (if d > 5 { 32 * cell(s, x - 5, y) } else { 0 })
    + (if d > 6 { 64 * cell(s, x - 6, y) } else { 0 })
    + (if d > 7 { 128 * cell(s, x - 7, y) } else { 0 })
}

/// The bit buffer of a cursor at `(x, y)`: the eight cells that end there.
pub open spec fn window_bits(s: Seq<Pos2>, x: int, y: int) -> int {
    partial_bits(s, x, y, 8)
}

/// `out` is what one band of `s` contributes to the next generation: the
/// strictly sorted sequence of the cells that live next and lie after the cell
/// above and left of `s[start]`, up to the cell below and right of
/// `s[end - 1]`.
pub open spec fn is_band_generation(s: Seq<Pos2>, start: int, end: int, out: Seq<Pos2>) -> bool {
    &&& strictly_sorted(out)
    &&& forall|x: int, y: int| #[trigger]
        alive_at(out, x, y) <==> {
            &&& lives_next(s, x, y)
            &&& precedes(s[start].x - 1, s[start].y - 1, x, y)
            &&& !precedes(s[end - 1].x + 1, s[end - 1].y + 1, x, y)
        }
}

/// A cell that lives next has an alive cell next to it.
pub proof fn lemma_alive_neighbor(s: Seq<Pos2>, x: int, y: int) -> (j: int)
    requires
        lives_next(s, x, y),
    ensures
        0 <= j < s.len(),
        x - 1 <= s[j].x <= x + 1,
        y - 1 <= s[j].y <= y + 1,
        !(s[j].x == x && s[j].y == y),
{
    let (qx, qy) = if alive_at(s, x - 1, y - 1) {
        (x - 1, y - 1)
    } else if alive_at(s, x, y - 1) {
        (x, y - 1)
    } else if alive_at(s, x + 1, y - 1) {
        (x + 1, y - 1)
    } else if alive_at(s, x - 1, y) {
        (x - 1, y)
    } else if alive_at(s, x + 1, y) {
        (x + 1, y)
    } else if alive_at(s, x - 1, y + 1) {
        (x - 1, y + 1)
    } else if alive_at(s, x, y + 1) {
        (x, y + 1)
    } else {
        (x + 1, y + 1)
    };
    assert(alive_at(s, qx, qy));
    choose|j: int| 0 <= j < s.len() && (#[trigger] s[j]).x == qx && s[j].y == qy
}

/// A cell that lives next at or before the cell above and left of `s[e]` has
/// an alive neighbour before `s[e]`.
pub proof fn lemma_reached_earlier(s: Seq<Pos2>, e: int, x: int, y: int) -> (j: int)
    requires
        strictly_sorted(s),
        0 <= e < s.len(),
        lives_next(s, x, y),
        !precedes(s[e].x - 1, s[e].y - 1, x, y),
    ensures
        0 <= j < e,
        x - 1 <= s[j].x <= x + 1,
        y - 1 <= s[j].y <= y + 1,
{
    // every neighbour but the one below and right comes before `s[e]`
    let (qx, qy) = if alive_at(s, x - 1, y - 1) {
        (x - 1, y - 1)
    } else if alive_at(s, x, y - 1) {
        (x, y - 1)
    } else if alive_at(s, x + 1, y - 1) {
        (x + 1, y - 1)
    } else if alive_at(s, x - 1, y) {
        (x - 1, y)
    } else if alive_at(s, x + 1, y) {
        (x + 1, y)
    } else if alive_at(s, x - 1, y + 1) {
        (x - 1, y + 1)
    } else {
        (x, y + 1)
    };
    assert(alive_at(s, qx, qy));
    let j = choose|j: int| 0 <= j < s.len() && (#[trigger] s[j]).x == qx && s[j].y == qy;
    if j > e {
        assert(pos_lt(s[e], s[j]));
    }
    j
}

/// No cell lives next at or before the cell above and left of the first
/// alive cell; in an empty set no cell lives next at all.
pub proof fn lemma_nothing_before_first(s: Seq<Pos2>)
    requires
        strictly_sorted(s),
    ensures
        forall|x: int, y: int| #[trigger]
            lives_next(s, x, y) ==> s.len() > 0 && precedes(s[0].x - 1, s[0].y - 1, x, y),
{
    assert forall|x: int, y: int| #[trigger] lives_next(s, x, y) implies s.len() > 0 && precedes(
        s[0].x - 1,
        s[0].y - 1,
        x,
        y,
    ) by {
        let j = lemma_alive_neighbor(s, x, y);
        if !precedes(s[0].x - 1, s[0].y - 1, x, y) {
            let k = lemma_reached_earlier(s, 0, x, y);
        }
    }
}

/// No cell lives next after the cell below and right of the last alive cell.
pub proof fn lemma_nothing_after_last(s: Seq<Pos2>)
    requires
        strictly_sorted(s),
    ensures
        forall|x: int, y: int| #[trigger]
            lives_next(s, x, y) ==> s.len() > 0 && !precedes(
                s.last().x + 1,
                s.last().y + 1,
                x,
                y,
            ),
{
    assert forall|x: int, y: int| #[trigger] lives_next(s, x, y) implies s.len() > 0 && !precedes(
        s.last().x + 1,
        s.last().y + 1,
        x,
        y,
    ) by {
        let j = lemma_alive_neighbor(s, x, y);
        if j < s.len() - 1 {
            assert(pos_lt(s[j], s[s.len() - 1]));
        }
    }
}

/// Two strictly sorted sequences with the same cells are equal.
pub proof fn lemma_sorted_unique(a: Seq<Pos2>, b: Seq<Pos2>)
    requires
        strictly_sorted(a),
        strictly_sorted(b),
        forall|x: int, y: int| alive_at(a, x, y) == alive_at(b, x, y),
    ensures
        a == b,
    decreases a.len(),
{
    if a.len() == 0 {
        if b.len() > 0 {
            assert(alive_at(b, b[0].x as int, b[0].y as int));
            assert(alive_at(a, b[0].x as int, b[0].y as int));
        }
        assert(a =~= b);
    } else {
        let p = a.last();
        assert(alive_at(a, p.x as int, p.y as int));
        assert(alive_at(b, p.x as int, p.y as int));
        let k = choose|k: int| 0 <= k < b.len() && (#[trigger] b[k]).x == p.x && b[k].y == p.y;
        if k < b.len() - 1 {
            let q = b.last();
            assert(pos_lt(b[k], q));
            assert(alive_at(b, q.x as int, q.y as int));
            assert(alive_at(a, q.x as int, q.y as int));
            let i = choose|i: int| 0 <= i < a.len() && (#[trigger] a[i]).x == q.x && a[i].y == q.y;
            if i < a.len() - 1 {
                assert(pos_lt(a[i], p));
            }
        }
        assert(b.last() == p);
        let a0 = a.drop_last();
        let b0 = b.drop_last();
        assert forall|x: int, y: int| alive_at(a0, x, y) == alive_at(b0, x, y) by {
            if alive_at(a0, x, y) {
                let i = choose|i: int| 0 <= i < a0.len() && (#[trigger] a0[i]).x == x && a0[i].y == y;
                assert(a[i] == a0[i]);
                assert(pos_lt(a[i], p));
                assert(alive_at(a, x, y));
                let k2 = choose|k2: int| 0 <= k2 < b.len() && (#[trigger] b[k2]).x == x && b[k2].y == y;
                assert(b0[k2] == b[k2]);
            }
            if alive_at(b0, x, y) {
                let i = choose|i: int| 0 <= i < b0.len() && (#[trigger] b0[i]).x == x && b0[i].y == y;
                assert(b[i] == b0[i]);
                assert(pos_lt(b[i], p));
                assert(alive_at(b, x, y));
                let k2 = choose|k2: int| 0 <= k2 < a.len() && (#[trigger] a[k2]).x == x && a[k2].y == y;
                assert(a0[k2] == a[k2]);
            }
        }
        assert(strictly_sorted(a0)) by {
            assert forall|i: int, j: int| 0 <= i < j < a0.len() implies pos_lt(
                #[trigger] a0[i],
                #[trigger] a0[j],
            ) by {
                assert(a0[i] == a[i] && a0[j] == a[j]);
            }
        }
        assert(strictly_sorted(b0)) by {
            assert forall|i: int, j: int| 0 <= i < j < b0.len() implies pos_lt(
                #[trigger] b0[i],
                #[trigger] b0[j],
            ) by {
                assert(b0[i] == b[i] && b0[j] == b[j]);
            }
        }
        lemma_sorted_unique(a0, b0);
        assert(a =~= a0.push(p));
        assert(b =~= b0.push(p));
    }
}

/// The next generation is unique: however it was computed, cell by cell in one
/// scan or band by band with any number of bands, the result is the same
/// sequence.
pub proof fn lemma_next_generation_unique(before: Seq<Pos2>, a: Seq<Pos2>, b: Seq<Pos2>)
    requires
        is_next_generation(before, a),
        is_next_generation(before, b),
    ensures
        a == b,
        a == next_generation_of(before),
{
    lemma_sorted_unique(a, b);
    lemma_sorted_unique(a, next_generation_of(before));
}

} // verus!
