//! One generation, cell by cell: the scan that yields the alive cells of the
//! next generation in order.

use crate::engine::index::{
    grid_bit, grid_neighbors, is_rule_table, lookup, next_state, GameOfLifeIndex, PERMUTATIONS,
};
use crate::engine::life::{
    alive_at, cell, is_band_generation, is_next_generation, lemma_next_generation_unique,
    lemma_nothing_before_first, lives_next, neighbors, next_generation_of, partial_bits, precedes,
    strictly_sorted, window_bits,
};
use crate::engine::scan::{
    can_skip, is_first_after, meets, row_position, row_windows, MultiRowPosCursor,
};
use crate::pos::{pos_lt, Pos2};
use vstd::prelude::*;

verus! {

/// The bits of a row's buffer that belong to a 3x3 neighbourhood.
pub const ROW_MASK: u8 = 0b111;

/// The number of rows of a neighbourhood.
pub const WINDOW: usize = 3;

/// Every cell of `s` is far enough from the ends of the coordinates for a
/// scan to pass it and for its neighbours to have coordinates.
pub open spec fn within_margin(s: Seq<Pos2>) -> bool {
    forall|j: int|
        0 <= j < s.len() ==> {
            &&& i32::MIN + 1 <= (#[trigger] s[j]).x <= i32::MAX - 3
            &&& i32::MIN + 2 <= s[j].y <= i32::MAX - 2
        }
}

/// An alive cell lies in the 3x3 block around the cell `(x, y)`, the cell
/// itself included.
pub open spec fn near(s: Seq<Pos2>, x: int, y: int) -> bool {
    exists|qx: int, qy: int|
        x - 1 <= qx <= x + 1 && y - 1 <= qy <= y + 1 && #[trigger] alive_at(s, qx, qy)
}

/// The column right of the cell `(x, y)` holds an alive cell in its row, the
/// row above or the row below: the scan at this cell has a row that stands on
/// an alive cell.
pub open spec fn arrives(s: Seq<Pos2>, x: int, y: int) -> bool {
    meets(s, x + 1, y + 1, 3)
}

/// The neighbourhood that three row buffers give: the lowest three bits of
/// each, the topmost row in the lowest bits.
pub open spec fn pack(buffers: Seq<u8>) -> int {
    (buffers[0] % 8) + 8 * (buffers[1] % 8) + 64 * (buffers[2] % 8)
}

/// 8 to the power `i`, for `i` below 3.
spec fn row_value(i: int) -> int {
    if i == 0 {
        1
    } else if i == 1 {
        8
    } else {
        64
    }
}

/// The neighbourhood of the first `i` of three row buffers.
spec fn pack_rows(buffers: Seq<u8>, i: int) -> int {
    (if i > 0 { buffers[0] % 8 } else { 0 })
    + (if i > 1 { 8 * (buffers[1] % 8) } else { 0 })
    + (if i > 2 { 64 * (buffers[2] % 8) } else { 0 })
}

/// The three bits of row `i` are added to a neighbourhood of the rows before
/// it by shifting them to their place and setting them.
proof fn lemma_or_row(grid: usize, buffer: u8, i: usize)
    requires
        i < 3,
        grid < row_value(i as int),
    ensures
        (grid | (((buffer & ROW_MASK) as usize) << (i * 3))) == grid + row_value(i as int) * (buffer
            % 8),
        (buffer & ROW_MASK == 0) == (buffer % 8 == 0),
{
    let v = (buffer & 7) as usize;
    let sh = (i * 3) as usize;
    assert(v == buffer % 8 && (buffer & 7 == 0) == (buffer % 8 == 0)) by (bit_vector)
        requires
            v == (buffer & 7) as usize,
    ;
    assert({
        &&& (sh == 0 ==> (grid | (v << sh)) == grid + v)
        &&& (sh == 3 ==> (grid | (v << sh)) == grid + 8 * v)
        &&& (sh == 6 ==> (grid | (v << sh)) == grid + 64 * v)
    }) by (bit_vector)
        requires
            v < 8,
            sh == 0 ==> grid < 1,
            sh == 3 ==> grid < 8,
            sh == 6 ==> grid < 64,
    ;
}

/// The lowest three bits of a row's buffer are the cells at the cursor's
/// column and at the two columns before it.
proof fn lemma_low_bits(s: Seq<Pos2>, x: int, y: int)
    ensures
        0 <= window_bits(s, x, y) < 256,
        window_bits(s, x, y) % 8 == cell(s, x, y) + 2 * cell(s, x - 1, y) + 4 * cell(s, x - 2, y),
{
    reveal(partial_bits);
    let low = partial_bits(s, x, y, 3);
    let high = cell(s, x - 3, y) + 2 * cell(s, x - 4, y) + 4 * cell(s, x - 5, y) + 8 * cell(
        s,
        x - 6,
        y,
    ) + 16 * cell(s, x - 7, y);
    assert(window_bits(s, x, y) == low + 8 * high);
    assert(0 <= low < 8);
    assert((low + 8 * high) % 8 == low) by (nonlinear_arith)
        requires
            0 <= low < 8,
            0 <= high,
    ;
}

/// Each bit of a number made of nine bits is the bit it was made of.
proof fn lemma_grid_bits(
    grid: u32,
    c0: u32,
    c1: u32,
    c2: u32,
    c3: u32,
    c4: u32,
    c5: u32,
    c6: u32,
    c7: u32,
    c8: u32,
)
    requires
        c0 <= 1 && c1 <= 1 && c2 <= 1 && c3 <= 1 && c4 <= 1 && c5 <= 1 && c6 <= 1 && c7 <= 1 && c8
            <= 1,
        grid == c0 + 2 * c1 + 4 * c2 + 8 * c3 + 16 * c4 + 32 * c5 + 64 * c6 + 128 * c7 + 256 * c8,
    ensures
        grid < 512,
        grid_bit(grid as int, 0) == c0,
        grid_bit(grid as int, 1) == c1,
        grid_bit(grid as int, 2) == c2,
        grid_bit(grid as int, 3) == c3,
        grid_bit(grid as int, 4) == c4,
        grid_bit(grid as int, 5) == c5,
        grid_bit(grid as int, 6) == c6,
        grid_bit(grid as int, 7) == c7,
        grid_bit(grid as int, 8) == c8,
{
    assert({
        &&& grid < 512
        &&& grid % 2 == c0
        &&& (grid / 2) % 2 == c1
        &&& (grid / 4) % 2 == c2
        &&& (grid / 8) % 2 == c3
        &&& (grid / 16) % 2 == c4
        &&& (grid / 32) % 2 == c5
        &&& (grid / 64) % 2 == c6
        &&& (grid / 128) % 2 == c7
        &&& (grid / 256) % 2 == c8
    }) by (bit_vector)
        requires
            c0 <= 1 && c1 <= 1 && c2 <= 1 && c3 <= 1 && c4 <= 1 && c5 <= 1 && c6 <= 1 && c7 <= 1
                && c8 <= 1,
            grid == c0 + 2 * c1 + 4 * c2 + 8 * c3 + 16 * c4 + 32 * c5 + 64 * c6 + 128 * c7 + 256
                * c8,
    ;
}

/// The neighbourhood that the buffers of a three-row cursor at `b` give is
/// that of the cell one row and one column before `b`, and the rule table
/// says of it whether that cell lives next.
pub proof fn lemma_neighbourhood(s: Seq<Pos2>, b: Pos2)
    ensures
        0 <= pack(row_windows(s, b, 3)) < PERMUTATIONS,
        next_state(pack(row_windows(s, b, 3))) == lives_next(s, b.x - 1, b.y - 1),
{
    let x = b.x as int;
    let y = b.y as int;
    let buffers = row_windows(s, b, 3);
    lemma_low_bits(s, x, y - 2);
    lemma_low_bits(s, x, y - 1);
    lemma_low_bits(s, x, y);
    assert(buffers[0] == window_bits(s, x, y - 2));
    assert(buffers[1] == window_bits(s, x, y - 1));
    assert(buffers[2] == window_bits(s, x, y));
    let grid = pack(buffers);
    let c0 = cell(s, x, y - 2);
    let c1 = cell(s, x - 1, y - 2);
    let c2 = cell(s, x - 2, y - 2);
    let c3 = cell(s, x, y - 1);
    let c4 = cell(s, x - 1, y - 1);
    let c5 = cell(s, x - 2, y - 1);
    let c6 = cell(s, x, y);
    let c7 = cell(s, x - 1, y);
    let c8 = cell(s, x - 2, y);
    assert(buffers[0] % 8 == c0 + 2 * c1 + 4 * c2);
    assert(buffers[1] % 8 == c3 + 2 * c4 + 4 * c5);
    assert(buffers[2] % 8 == c6 + 2 * c7 + 4 * c8);
    assert(grid == c0 + 2 * c1 + 4 * c2 + 8 * c3 + 16 * c4 + 32 * c5 + 64 * c6 + 128 * c7 + 256
        * c8);
    lemma_grid_bits(
        grid as u32,
        c0 as u32,
        c1 as u32,
        c2 as u32,
        c3 as u32,
        c4 as u32,
        c5 as u32,
        c6 as u32,
        c7 as u32,
        c8 as u32,
    );
    assert(grid_neighbors(grid) == c0 + c1 + c2 + c3 + c5 + c6 + c7 + c8);
    assert(neighbors(s, x - 1, y - 1) == c2 + c1 + c0 + c5 + c3 + c8 + c7 + c6);
    assert((grid_bit(grid, 4) == 1) == alive_at(s, x - 1, y - 1));
}

/// A row buffer whose lowest three bits are clear has no alive cell at the
/// cursor's column nor at the two before it.
proof fn lemma_clear_row(s: Seq<Pos2>, x: int, y: int)
    requires
        window_bits(s, x, y) % 8 == 0,
    ensures
        !alive_at(s, x, y),
        !alive_at(s, x - 1, y),
        !alive_at(s, x - 2, y),
{
    lemma_low_bits(s, x, y);
}

/// A cell after the centre of a three-row cursor at `b` whose buffers are
/// clear has no alive neighbour and is dead itself, where no row of the cursor
/// meets an alive cell in the three columns around it, as far as these come
/// after `b`.
proof fn lemma_dead_cell(s: Seq<Pos2>, b: Pos2, x: int, y: int)
    requires
        window_bits(s, b.x as int, b.y - 2) % 8 == 0,
        window_bits(s, b.x as int, b.y - 1) % 8 == 0,
        window_bits(s, b.x as int, b.y as int) % 8 == 0,
        precedes(b.x - 1, b.y - 1, x, y),
        precedes(b.x as int, b.y as int, x - 1, y + 1) ==> !meets(s, x - 1, y + 1, 3),
        precedes(b.x as int, b.y as int, x, y + 1) ==> !meets(s, x, y + 1, 3),
        precedes(b.x as int, b.y as int, x + 1, y + 1) ==> !meets(s, x + 1, y + 1, 3),
    ensures
        neighbors(s, x, y) == 0,
        !alive_at(s, x, y),
        !lives_next(s, x, y),
{
    lemma_clear_row(s, b.x as int, b.y - 2);
    lemma_clear_row(s, b.x as int, b.y - 1);
    lemma_clear_row(s, b.x as int, b.y as int);
    assert forall|q: int, r: int| x - 1 <= q <= x + 1 && y - 1 <= r <= y + 1 implies !alive_at(
        s,
        q,
        r,
    ) by {
        if alive_at(s, q, r) {
            assert(meets(s, q, y + 1, 3));
        }
    }
}

/// A three-row cursor with a buffer that is not clear has an alive cell at
/// its column or at one of the two before it, so it can move on by a column.
proof fn lemma_occupied(s: Seq<Pos2>, b: Pos2)
    requires
        within_margin(s),
        !clear_at(s, b),
    ensures
        b.x < i32::MAX,
{
    lemma_low_bits(s, b.x as int, b.y - 2);
    lemma_low_bits(s, b.x as int, b.y - 1);
    lemma_low_bits(s, b.x as int, b.y as int);
    assert forall|q: int, r: int| #[trigger] alive_at(s, q, r) implies q <= i32::MAX - 3 by {
        let j = choose|j: int| 0 <= j < s.len() && (#[trigger] s[j]).x == q && s[j].y == r;
    }
}

/// A position at which a row meets an alive cell is within the margin.
proof fn lemma_reached(s: Seq<Pos2>, t: Pos2)
    requires
        within_margin(s),
        meets(s, t.x as int, t.y as int, 3),
    ensures
        t.x > i32::MIN,
{
    let r = choose|r: int| t.y - 3 < r <= t.y && #[trigger] alive_at(s, t.x as int, r);
    let j = choose|j: int| 0 <= j < s.len() && (#[trigger] s[j]).x == t.x && s[j].y == r;
}

/// The three rows of a cursor at `b` are clear.
spec fn clear_at(s: Seq<Pos2>, b: Pos2) -> bool {
    &&& window_bits(s, b.x as int, b.y - 2) % 8 == 0
    &&& window_bits(s, b.x as int, b.y - 1) % 8 == 0
    &&& window_bits(s, b.x as int, b.y as int) % 8 == 0
}

/// The buffers of a three-row cursor at `b` have their lowest three bits
/// clear exactly if the rows are clear.
proof fn lemma_buffers_clear(s: Seq<Pos2>, b: Pos2)
    ensures
        clear_at(s, b) == forall|j: int|
            0 <= j < 3 ==> #[trigger] row_windows(s, b, 3)[j] % 8 == 0,
{
    let buffers = row_windows(s, b, 3);
    lemma_low_bits(s, b.x as int, b.y - 2);
    lemma_low_bits(s, b.x as int, b.y - 1);
    lemma_low_bits(s, b.x as int, b.y as int);
    assert(buffers[0] == window_bits(s, b.x as int, b.y - 2));
    assert(buffers[1] == window_bits(s, b.x as int, b.y - 1));
    assert(buffers[2] == window_bits(s, b.x as int, b.y as int));
}

/// From a clear cursor at `b` to the closest position `t` at which a row
/// meets an alive cell, no cell between their centres lives next.
proof fn lemma_skip(s: Seq<Pos2>, b: Pos2, t: Pos2)
    requires
        clear_at(s, b),
        forall|x: int, y: int|
            precedes(b.x as int, b.y as int, x, y) && precedes(x, y, t.x as int, t.y as int)
                ==> !#[trigger] meets(s, x, y, 3),
    ensures
        forall|x: int, y: int|
            precedes(b.x - 1, b.y - 1, x, y) && precedes(x, y, t.x - 1, t.y - 1)
                ==> !#[trigger] lives_next(s, x, y),
{
    assert forall|x: int, y: int|
        precedes(b.x - 1, b.y - 1, x, y) && precedes(x, y, t.x - 1, t.y - 1) implies !#[trigger] lives_next(
        s,
        x,
        y,
    ) by {
        lemma_dead_cell(s, b, x, y);
    }
}

/// After a clear cursor at `b` with no row that meets an alive cell further
/// on, no cell after its centre lives next.
proof fn lemma_done(s: Seq<Pos2>, b: Pos2)
    requires
        clear_at(s, b),
        forall|x: int, y: int|
            precedes(b.x as int, b.y as int, x, y) ==> !#[trigger] meets(s, x, y, 3),
    ensures
        forall|x: int, y: int|
            precedes(b.x - 1, b.y - 1, x, y) ==> !#[trigger] lives_next(s, x, y),
{
    assert forall|x: int, y: int| precedes(b.x - 1, b.y - 1, x, y) implies !#[trigger] lives_next(
        s,
        x,
        y,
    ) by {
        lemma_dead_cell(s, b, x, y);
    }
}

/// The rows of a cursor at `b` are clear exactly if no alive cell lies in
/// the 3x3 block around its centre.
proof fn lemma_clear_near(s: Seq<Pos2>, b: Pos2)
    ensures
        clear_at(s, b) == !near(s, b.x - 1, b.y - 1),
{
    let x = b.x as int;
    let y = b.y as int;
    lemma_low_bits(s, x, y - 2);
    lemma_low_bits(s, x, y - 1);
    lemma_low_bits(s, x, y);
    if near(s, x - 1, y - 1) {
        let (qx, qy) = choose|qx: int, qy: int|
            x - 2 <= qx <= x && y - 2 <= qy <= y && #[trigger] alive_at(s, qx, qy);
        assert(!clear_at(s, b));
    }
    if !clear_at(s, b) {
        let (qx, qy) = if alive_at(s, x, y - 2) {
            (x, y - 2)
        } else if alive_at(s, x - 1, y - 2) {
            (x - 1, y - 2)
        } else if alive_at(s, x - 2, y - 2) {
            (x - 2, y - 2)
        } else if alive_at(s, x, y - 1) {
            (x, y - 1)
        } else if alive_at(s, x - 1, y - 1) {
            (x - 1, y - 1)
        } else if alive_at(s, x - 2, y - 1) {
            (x - 2, y - 1)
        } else if alive_at(s, x, y) {
            (x, y)
        } else if alive_at(s, x - 1, y) {
            (x - 1, y)
        } else {
            (x - 2, y)
        };
        assert(alive_at(s, qx, qy));
    }
}

/// A three-row cursor over cells within the margin can skip on from anywhere.
proof fn lemma_margin_skips(s: Seq<Pos2>, p: Pos2)
    requires
        within_margin(s),
    ensures
        can_skip(s, p, 3),
{
    assert forall|r: int, e: Pos2|
        0 <= r < 3 && #[trigger] is_first_after(s, row_position(p, 3, r), Some(e)) implies e.y
        + (3 - 1 - r) <= i32::MAX by {
        let i = choose|i: int| 0 <= i < s.len() && #[trigger] s[i] == e;
    }
}

/// The scan of one generation: it walks a three-row cursor over the alive set
/// and yields, in order, the cells that are alive in the next generation.
pub struct NextGeneration<'a> {
    cursor: MultiRowPosCursor<'a>,
    index: &'a GameOfLifeIndex,
}

impl<'a> NextGeneration<'a> {
    /// The alive set that is scanned.
    pub closed spec fn slice(&self) -> Seq<Pos2> {
        self.cursor.slice()
    }

    /// The cell that the scan has reached: the centre of the cursor's
    /// neighbourhood, one row and one column before the bottom row's cursor.
    pub closed spec fn center(&self) -> Pos2 {
        Pos2 { x: (self.cursor.position().x - 1) as i32, y: (self.cursor.position().y - 1) as i32 }
    }

    /// The cursor has three rows over an alive set within the margin, and the
    /// table is the rule table.
    pub closed spec fn wf(&self) -> bool {
        &&& self.cursor.wf()
        &&& self.cursor.rows() == WINDOW
        &&& within_margin(self.cursor.slice())
        &&& is_rule_table(*self.index)
        &&& self.cursor.position().x > i32::MIN
    }

    /// A bound on the number of steps that are left.
    pub closed spec fn remaining(&self) -> int {
        (i32::MAX - self.cursor.position().y) * 0x1_0000_0000 + (i32::MAX
            - self.cursor.position().x)
    }

    /// What a well-formed scan says of its alive set.
    pub proof fn lemma_well_formed(&self)
        requires
            self.wf(),
        ensures
            strictly_sorted(self.slice()),
            within_margin(self.slice()),
            self.remaining() >= 0,
    {
        self.cursor.lemma_well_formed();
    }

    /// Looks up the next state of the centre cell of the neighbourhood that the
    /// three row buffers give.
    pub fn next_cell_state(index: &GameOfLifeIndex, buffers: &[u8]) -> (alive: bool)
        requires
            buffers@.len() == WINDOW,
            is_rule_table(*index),
        ensures
            alive == next_state(pack(buffers@)),
    {
        // combine the first 3 bits of each bit buffer into a bit-grid
        let mut grid: usize = 0;
        let mut i: usize = 0;
        while i < WINDOW
            invariant
                buffers@.len() == WINDOW,
                0 <= i <= WINDOW,
                grid == pack_rows(buffers@, i as int),
            decreases WINDOW - i,
        {
            let buffer = buffers[i];
            proof {
                lemma_or_row(grid, buffer, i);
            }
            grid = grid | (((buffer & ROW_MASK) as usize) << (i * 3));
            i += 1;
        }
        // lookup the grid in the index to get the state of the central cell
        lookup(index, grid)
    }

    /// Starts the scan of `alive` at its first cell.
    pub fn new(alive: &'a [Pos2], index: &'a GameOfLifeIndex) -> (scan: Self)
        requires
            strictly_sorted(alive@),
            within_margin(alive@),
            is_rule_table(*index),
        ensures
            scan.wf(),
            scan.slice() == alive@,
            scan.center() == (if alive@.len() > 0 {
                Pos2 { x: (alive@[0].x - 1) as i32, y: (alive@[0].y - 1) as i32 }
            } else {
                Pos2 { x: -1i32, y: -1i32 }
            }),
    {
        let cursor = MultiRowPosCursor::new(alive, WINDOW);
        Self { cursor, index }
    }

    /// Starts the scan of `alive` at its cell `start`: the first cell that the
    /// scan tries is the one after the cell above and left of it.
    pub fn starting_at(alive: &'a [Pos2], index: &'a GameOfLifeIndex, start: usize) -> (scan: Self)
        requires
            strictly_sorted(alive@),
            within_margin(alive@),
            is_rule_table(*index),
            start < alive@.len(),
        ensures
            scan.wf(),
            scan.slice() == alive@,
            scan.center() == (Pos2 {
                x: (alive@[start as int].x - 1) as i32,
                y: (alive@[start as int].y - 1) as i32,
            }),
    {
        let mut cursor = MultiRowPosCursor::new(alive, WINDOW);
        cursor.seek(alive[start]);
        Self { cursor, index }
    }

    /// The cell that the scan has reached.
    pub fn pos(&self) -> (pos: Pos2)
        requires
            self.wf(),
        ensures
            pos == self.center(),
    {
        proof {
            self.cursor.lemma_well_formed();
        }
        // the cursor is that of the bottom row: the centre is one back
        self.cursor.cursor() - Pos2::one()
    }

    /// Moves to the next cell that may be alive in the next generation.
    ///
    /// Returns that cell and whether it is alive then, or `None` where no
    /// further cell is.
    pub fn step(&mut self) -> (next: Option<(Pos2, bool)>)
        requires
            old(self).wf(),
        ensures
            final(self).wf(),
            final(self).slice() == old(self).slice(),
            match next {
                Some((pos, alive)) => {
                    &&& pos == final(self).center()
                    &&& precedes(
                        old(self).center().x as int,
                        old(self).center().y as int,
                        pos.x as int,
                        pos.y as int,
                    )
                    &&& alive == lives_next(old(self).slice(), pos.x as int, pos.y as int)
                    &&& forall|x: int, y: int|
                        precedes(old(self).center().x as int, old(self).center().y as int, x, y)
                            && precedes(x, y, pos.x as int, pos.y as int) ==> !#[trigger] lives_next(
                            old(self).slice(),
                            x,
                            y,
                        )
                    &&& final(self).remaining() < old(self).remaining()
                },
                None => {
                    &&& final(self).center() == old(self).center()
                    &&& forall|x: int, y: int|
                        precedes(old(self).center().x as int, old(self).center().y as int, x, y)
                            ==> !#[trigger] lives_next(old(self).slice(), x, y)
                },
            },
            // next to an alive cell the scan moves on by one column
            near(
                old(self).slice(),
                old(self).center().x as int,
                old(self).center().y as int,
            ) ==> match next {
                Some((pos, _)) => pos == (Pos2 {
                    x: (old(self).center().x + 1) as i32,
                    y: old(self).center().y,
                }),
                None => false,
            },
            // elsewhere it skips to the first cell at which a row stands on an
            // alive cell, and ends where there is none
            !near(old(self).slice(), old(self).center().x as int, old(self).center().y as int)
                ==> match next {
                Some((pos, _)) => {
                    &&& arrives(old(self).slice(), pos.x as int, pos.y as int)
                    &&& forall|x: int, y: int|
                        precedes(old(self).center().x as int, old(self).center().y as int, x, y)
                            && precedes(x, y, pos.x as int, pos.y as int) ==> !#[trigger] arrives(
                            old(self).slice(),
                            x,
                            y,
                        )
                },
                None => forall|x: int, y: int|
                    precedes(old(self).center().x as int, old(self).center().y as int, x, y)
                        ==> !#[trigger] arrives(old(self).slice(), x, y),
            },
    {
        let ghost s = self.cursor.slice();
        let ghost b = self.cursor.position();
        proof {
            self.cursor.lemma_well_formed();
            lemma_buffers_clear(s, b);
            lemma_clear_near(s, b);
            lemma_margin_skips(s, b);
        }
        let buffers = self.cursor.buffers();
        let mut is_empty = true;
        let mut i: usize = 0;
        while i < WINDOW
            invariant
                buffers@.len() == WINDOW,
                0 <= i <= WINDOW,
                is_empty == forall|j: int| 0 <= j < i ==> #[trigger] buffers@[j] % 8 == 0,
            decreases WINDOW - i,
        {
            let buffer = buffers[i];
            assert((buffer & ROW_MASK == 0) == (buffer % 8 == 0)) by (bit_vector);
            if buffer & ROW_MASK != 0 {
                is_empty = false;
            }
            i += 1;
        }
        assert(is_empty == clear_at(s, b));
        let index = self.index;
        let next_state = if is_empty {
            match self.cursor.seek_closest() {
                Some(buffers) => {
                    let state = Self::next_cell_state(index, buffers);
                    proof {
                        let t = self.cursor.position();
                        lemma_reached(s, t);
                        lemma_neighbourhood(s, t);
                        lemma_skip(s, b, t);
                    }
                    state
                },
                None => {
                    proof {
                        lemma_done(s, b);
                    }
                    return None;
                },
            }
        } else {
            proof {
                lemma_occupied(s, b);
                lemma_neighbourhood(s, Pos2 { x: (b.x + 1) as i32, y: b.y });
            }
            let buffers = self.cursor.next();
            Self::next_cell_state(index, buffers)
        };
        Some((self.pos(), next_state))
    }

    /// Moves to the next cell that is alive in the next generation, and
    /// returns it, or `None` where there is no further one.
    pub fn next(&mut self) -> (next: Option<Pos2>)
        requires
            old(self).wf(),
        ensures
            final(self).wf(),
            final(self).slice() == old(self).slice(),
            match next {
                Some(pos) => {
                    &&& pos == final(self).center()
                    &&& precedes(
                        old(self).center().x as int,
                        old(self).center().y as int,
                        pos.x as int,
                        pos.y as int,
                    )
                    &&& lives_next(old(self).slice(), pos.x as int, pos.y as int)
                    &&& forall|x: int, y: int|
                        precedes(old(self).center().x as int, old(self).center().y as int, x, y)
                            && precedes(x, y, pos.x as int, pos.y as int) ==> !#[trigger] lives_next(
                            old(self).slice(),
                            x,
                            y,
                        )
                    &&& final(self).remaining() < old(self).remaining()
                },
                None => {
                    &&& !precedes(
                        final(self).center().x as int,
                        final(self).center().y as int,
                        old(self).center().x as int,
                        old(self).center().y as int,
                    )
                    &&& forall|x: int, y: int|
                        precedes(old(self).center().x as int, old(self).center().y as int, x, y)
                            ==> !#[trigger] lives_next(old(self).slice(), x, y)
                },
            },
    {
        let ghost s = self.cursor.slice();
        let ghost from = self.center();
        loop
            invariant
                self.wf(),
                self.slice() == s,
                s == old(self).slice(),
                from == old(self).center(),
                self.remaining() <= old(self).remaining(),
                !precedes(
                    self.center().x as int,
                    self.center().y as int,
                    from.x as int,
                    from.y as int,
                ),
                forall|x: int, y: int|
                    precedes(from.x as int, from.y as int, x, y) && !precedes(
                        self.center().x as int,
                        self.center().y as int,
                        x,
                        y,
                    ) ==> !#[trigger] lives_next(s, x, y),
            decreases self.remaining(),
        {
            proof {
                self.lemma_well_formed();
            }
            match self.step() {
                Some((pos, alive)) => {
                    if alive {
                        return Some(pos);
                    }
                },
                None => {
                    return None;
                },
            }
        }
    }
}

/// The cells of `out` are those that live next up to the cell `upto`, and
/// after the cell `from` where one is given.
spec fn collected(s: Seq<Pos2>, out: Seq<Pos2>, from: Option<Pos2>, upto: Pos2) -> bool {
    &&& strictly_sorted(out)
    &&& forall|x: int, y: int| #[trigger]
        alive_at(out, x, y) <==> {
            &&& lives_next(s, x, y)
            &&& from is Some ==> precedes(from->0.x as int, from->0.y as int, x, y)
            &&& !precedes(upto.x as int, upto.y as int, x, y)
        }
}

/// Nothing is collected up to the cell a scan starts from.
proof fn lemma_collected_none(s: Seq<Pos2>, from: Option<Pos2>, upto: Pos2)
    requires
        match from {
            Some(from) => from == upto,
            None => forall|x: int, y: int| #[trigger]
                lives_next(s, x, y) ==> precedes(upto.x as int, upto.y as int, x, y),
        },
    ensures
        collected(s, Seq::<Pos2>::empty(), from, upto),
{
}

/// The next cell that lives next is collected after those before it.
proof fn lemma_collected_push(
    s: Seq<Pos2>,
    out: Seq<Pos2>,
    from: Option<Pos2>,
    upto: Pos2,
    pos: Pos2,
)
    requires
        collected(s, out, from, upto),
        from is Some ==> !precedes(
            upto.x as int,
            upto.y as int,
            from->0.x as int,
            from->0.y as int,
        ),
        precedes(upto.x as int, upto.y as int, pos.x as int, pos.y as int),
        lives_next(s, pos.x as int, pos.y as int),
        forall|x: int, y: int|
            precedes(upto.x as int, upto.y as int, x, y) && precedes(
                x,
                y,
                pos.x as int,
                pos.y as int,
            ) ==> !#[trigger] lives_next(s, x, y),
    ensures
        collected(s, out.push(pos), from, pos),
{
    let more = out.push(pos);
    assert forall|i: int, j: int| 0 <= i < j < more.len() implies pos_lt(
        #[trigger] more[i],
        #[trigger] more[j],
    ) by {
        if j == out.len() {
            assert(more[i] == out[i]);
            assert(alive_at(out, out[i].x as int, out[i].y as int));
        } else {
            assert(more[i] == out[i] && more[j] == out[j]);
        }
    }
    assert forall|x: int, y: int| #[trigger]
        alive_at(more, x, y) <==> {
            &&& lives_next(s, x, y)
            &&& from is Some ==> precedes(from->0.x as int, from->0.y as int, x, y)
            &&& !precedes(pos.x as int, pos.y as int, x, y)
        } by {
        if alive_at(more, x, y) {
            let i = choose|i: int| 0 <= i < more.len() && (#[trigger] more[i]).x == x && more[i].y == y;
            if i < out.len() {
                assert(more[i] == out[i]);
                assert(alive_at(out, x, y));
            }
        }
        if alive_at(out, x, y) {
            let i = choose|i: int| 0 <= i < out.len() && (#[trigger] out[i]).x == x && out[i].y == y;
            assert(more[i] == out[i]);
        }
        if x == pos.x && y == pos.y {
            assert(more[out.len() as int] == pos);
        }
    }
}

/// Computes the generation that follows `alive`, cell by cell in one scan.
pub fn generation(alive: &[Pos2], index: &GameOfLifeIndex) -> (next: Vec<Pos2>)
    requires
        strictly_sorted(alive@),
        within_margin(alive@),
        is_rule_table(*index),
    ensures
        is_next_generation(alive@, next@),
        next@ == next_generation_of(alive@),
{
    let mut next: Vec<Pos2> = Vec::new();
    let mut scan = NextGeneration::new(alive, index);
    proof {
        lemma_nothing_before_first(alive@);
        lemma_collected_none(alive@, None, scan.center());
    }
    loop
        invariant_except_break
            scan.wf(),
            scan.slice() == alive@,
            collected(alive@, next@, None, scan.center()),
        ensures
            is_next_generation(alive@, next@),
        decreases scan.remaining(),
    {
        let ghost before = scan;
        proof {
            scan.lemma_well_formed();
        }
        match scan.next() {
            Some(pos) => {
                proof {
                    lemma_collected_push(alive@, next@, None, before.center(), pos);
                }
                next.push(pos);
            },
            None => {
                break ;
            },
        }
    }
    proof {
        lemma_next_generation_unique(alive@, next@, next@);
    }
    next
}

/// Computes what the band of the cells `start` to `end - 1` of `alive`
/// contributes to the next generation.
///
/// The scan reads the whole alive set. It starts above and left of the band's
/// first cell and stops once it is past the cell below and right of its last.
pub fn band_generation(alive: &[Pos2], index: &GameOfLifeIndex, start: usize, end: usize) -> (next:
    Vec<Pos2>)
    requires
        strictly_sorted(alive@),
        within_margin(alive@),
        is_rule_table(*index),
        start < end <= alive@.len(),
    ensures
        is_band_generation(alive@, start as int, end as int, next@),
{
    let mut next: Vec<Pos2> = Vec::new();
    let mut scan = NextGeneration::starting_at(alive, index, start);
    let last_pos = alive[end - 1] + Pos2::one();
    let ghost first_pos = scan.center();
    proof {
        lemma_collected_none(alive@, Some(first_pos), scan.center());
        if start < end - 1 {
            assert(pos_lt(alive@[start as int], alive@[end - 1]));
        }
    }
    loop
        invariant_except_break
            scan.wf(),
            scan.slice() == alive@,
            collected(alive@, next@, Some(first_pos), scan.center()),
            !precedes(
                scan.center().x as int,
                scan.center().y as int,
                first_pos.x as int,
                first_pos.y as int,
            ),
            !precedes(
                last_pos.x as int,
                last_pos.y as int,
                scan.center().x as int,
                scan.center().y as int,
            ),
        invariant
            first_pos.x == alive@[start as int].x - 1,
            first_pos.y == alive@[start as int].y - 1,
            last_pos.x == alive@[end - 1].x + 1,
            last_pos.y == alive@[end - 1].y + 1,
        ensures
            is_band_generation(alive@, start as int, end as int, next@),
        decreases scan.remaining(),
    {
        let ghost before = scan;
        proof {
            scan.lemma_well_formed();
        }
        match scan.next() {
            Some(pos) => {
                if last_pos.before(&pos) {
                    break ;
                }
                proof {
                    lemma_collected_push(alive@, next@, Some(first_pos), before.center(), pos);
                }
                next.push(pos);
            },
            None => {
                break ;
            },
        }
    }
    next
}

} // verus!
