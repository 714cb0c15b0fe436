//! Cursors that scan the alive set row by row.

use crate::engine::life::{
    alive_at, cell, partial_bits, precedes, splits_at, strictly_sorted, window_bits,
};
use crate::pos::{pos_le, pos_lt, Pos2};
use crate::text::string_of;
use vstd::prelude::*;

verus! {

/// The index of the first element of `slice` that comes after `p`.
pub fn upper_bound(slice: &[Pos2], p: Pos2) -> (k: usize)
    requires
        strictly_sorted(slice@),
    ensures
        splits_at(slice@, p, k as int),
{
    let mut lo: usize = 0;
    let mut hi: usize = slice.len();
    while lo < hi
        invariant
            0 <= lo <= hi <= slice.len(),
            strictly_sorted(slice@),
            forall|i: int| 0 <= i < lo ==> pos_le(#[trigger] slice@[i], p),
            forall|i: int| hi <= i < slice.len() ==> pos_lt(p, #[trigger] slice@[i]),
        decreases hi - lo,
    {
        let mid = lo + (hi - lo) / 2;
        let at = slice[mid];
        if p.before(&at) {
            hi = mid;
        } else {
            lo = mid + 1;
        }
    }
    lo
}

/// One column to the right of `p`, the cell is present exactly if it is the
/// element at the split, and the split moves past it.
proof fn lemma_step_right(s: Seq<Pos2>, p: Pos2, k: int)
    requires
        strictly_sorted(s),
        splits_at(s, p, k),
        p.x < i32::MAX,
    ensures
        ({
            let q = Pos2 { x: (p.x + 1) as i32, y: p.y };
            let hit = k < s.len() && s[k] == q;
            &&& alive_at(s, p.x + 1, p.y as int) == hit
            &&& splits_at(s, q, if hit { k + 1 } else { k })
        }),
{
    let q = Pos2 { x: (p.x + 1) as i32, y: p.y };
    let hit = k < s.len() && s[k] == q;
    if alive_at(s, p.x + 1, p.y as int) {
        let j = choose|j: int| 0 <= j < s.len() && (#[trigger] s[j]).x == p.x + 1 && s[j].y == p.y;
        assert(pos_lt(p, s[j]));
        if j < k {
            assert(pos_le(s[j], p));
        }
        if j > k {
            assert(pos_lt(s[k], s[j]));
            assert(pos_lt(p, s[k]));
        }
        assert(j == k);
    }
    if hit {
        assert(s[k].x == p.x + 1 && s[k].y == p.y);
    }
    let k2 = if hit { k + 1 } else { k };
    assert forall|i: int| 0 <= i < k2 implies pos_le(#[trigger] s[i], q) by {
        if i < k {
            assert(pos_le(s[i], p));
        }
    }
    assert forall|i: int| k2 <= i < s.len() implies pos_lt(q, #[trigger] s[i]) by {
        assert(pos_lt(p, s[i]));
        assert(pos_lt(p, s[k]));
        if i > k {
            assert(pos_lt(s[k], s[i]));
        }
    }
}

/// Doubling drops the top bit of a byte.
proof fn lemma_double_byte(w: int, top: int, low: int)
    requires
        w == 128 * top + low,
        0 <= low < 128,
        0 <= top <= 1,
    ensures
        (w * 2) % 256 == 2 * low,
{
}

/// The buffer one column to the right: the old one shifted by a bit, with the
/// new cell in the lowest bit.
proof fn lemma_shift_window(s: Seq<Pos2>, x: int, y: int)
    ensures
        window_bits(s, x + 1, y) == cell(s, x + 1, y) + (window_bits(s, x, y) * 2) % 256,
        0 <= window_bits(s, x, y) < 256,
{
    reveal(partial_bits);
    let low = partial_bits(s, x, y, 7);
    assert(window_bits(s, x, y) == 128 * cell(s, x - 7, y) + low);
    lemma_double_byte(window_bits(s, x, y), cell(s, x - 7, y), low);
    assert(window_bits(s, x + 1, y) == cell(s, x + 1, y) + 2 * low);
}

/// The columns of the cursor's row from `d2` back to `d` behind it hold no
/// present position, where the elements before `m` lie further back and those
/// from `m` on lie nearer.
proof fn lemma_dead_between(s: Seq<Pos2>, p: Pos2, n: int, m: int, d: int, d2: int)
    requires
        strictly_sorted(s),
        splits_at(s, p, n),
        0 <= m <= n,
        0 <= d <= d2 <= 8,
        forall|j: int| 0 <= j < m ==> !((#[trigger] s[j]).y == p.y && s[j].x > p.x - d2),
        forall|j: int| m <= j < n ==> (#[trigger] s[j]).y == p.y && s[j].x > p.x - d,
    ensures
        forall|c: int| p.x - d2 < c <= p.x - d ==> !#[trigger] alive_at(s, c, p.y as int),
        partial_bits(s, p.x as int, p.y as int, d2) == partial_bits(s, p.x as int, p.y as int, d),
{
    assert forall|c: int| p.x - d2 < c <= p.x - d implies !#[trigger] alive_at(s, c, p.y as int) by {
        if alive_at(s, c, p.y as int) {
            let j = choose|j: int| 0 <= j < s.len() && (#[trigger] s[j]).x == c && s[j].y == p.y;
            if j >= n {
                assert(pos_lt(p, s[j]));
            }
        }
    }
    let x = p.x as int;
    let y = p.y as int;
    reveal(partial_bits);
    assert(!alive_at(s, x, y) || !(d <= 0 < d2));
    assert(!alive_at(s, x - 1, y) || !(d <= 1 < d2));
    assert(!alive_at(s, x - 2, y) || !(d <= 2 < d2));
    assert(!alive_at(s, x - 3, y) || !(d <= 3 < d2));
    assert(!alive_at(s, x - 4, y) || !(d <= 4 < d2));
    assert(!alive_at(s, x - 5, y) || !(d <= 5 < d2));
    assert(!alive_at(s, x - 6, y) || !(d <= 6 < d2));
    assert(!alive_at(s, x - 7, y) || !(d <= 7 < d2));
}

/// 2 to the power `k`, for `k` below 8.
pub open spec fn bit_value(k: int) -> int {
    if k == 0 {
        1
    } else if k == 1 {
        2
    } else if k == 2 {
        4
    } else if k == 3 {
        8
    } else if k == 4 {
        16
    } else if k == 5 {
        32
    } else if k == 6 {
        64
    } else {
        128
    }
}

/// One more column adds its bit to the columns before it.
proof fn lemma_bit_added(s: Seq<Pos2>, x: int, y: int, k: int)
    requires
        0 <= k < 8,
    ensures
        partial_bits(s, x, y, 0) == 0,
        0 <= partial_bits(s, x, y, k) < bit_value(k),
        partial_bits(s, x, y, k + 1) == partial_bits(s, x, y, k) + bit_value(k) * cell(s, x - k, y),
{
    reveal(partial_bits);
}

/// Setting a bit above all the bits of `b` adds its value.
proof fn lemma_set_bit(b: u8, k: u8)
    requires
        k < 8,
        b < bit_value(k as int),
    ensures
        (b | (1u8 << k)) == b + bit_value(k as int),
{
    let v = 1u8 << k;
    assert(v == bit_value(k as int)) by {
        assert((k == 0 ==> v == 1) && (k == 1 ==> v == 2) && (k == 2 ==> v == 4) && (k == 3 ==> v
            == 8) && (k == 4 ==> v == 16) && (k == 5 ==> v == 32) && (k == 6 ==> v == 64) && (k
            == 7 ==> v == 128)) by (bit_vector)
            requires
                v == 1u8 << k,
        ;
    }
    assert((b | v) == b + v) by (bit_vector)
        requires
            k < 8,
            v == 1u8 << k,
            b < v,
    ;
}

/// `present` is the first element of `s` after `p`, or `None` where none
/// comes after it.
pub open spec fn is_first_after(s: Seq<Pos2>, p: Pos2, present: Option<Pos2>) -> bool {
    match present {
        Some(q) => {
            &&& pos_lt(p, q)
            &&& exists|i: int| 0 <= i < s.len() && #[trigger] s[i] == q
            &&& forall|i: int| 0 <= i < s.len() && pos_lt(p, #[trigger] s[i]) ==> pos_le(q, s[i])
        },
        None => forall|i: int| 0 <= i < s.len() ==> pos_le(#[trigger] s[i], p),
    }
}

/// A cursor over a slice of ordered positions.
///
/// It scans the columns of one row from left to right and keeps a buffer that
/// says which of the last eight columns are present in the slice. `seek` moves
/// it to another row or column.
#[derive(Debug, Clone, Copy)]
pub struct PosCursor<'a> {
    slice: &'a [Pos2],
    next_idx: usize,
    cursor: Pos2,
    buffer: u8,
}

impl<'a> PosCursor<'a> {
    /// The slice that is scanned.
    pub closed spec fn slice(&self) -> Seq<Pos2> {
        self.slice@
    }

    /// The position of the cursor.
    pub closed spec fn position(&self) -> Pos2 {
        self.cursor
    }

    /// The next present position after the cursor, as the cursor tracks it.
    pub closed spec fn present(&self) -> Option<Pos2> {
        if self.next_idx < self.slice@.len() {
            Some(self.slice@[self.next_idx as int])
        } else {
            None
        }
    }

    /// The index still counts only elements at or before the cursor.
    spec fn behind(&self) -> bool {
        &&& strictly_sorted(self.slice@)
        &&& self.next_idx <= self.slice@.len()
        &&& forall|i: int| 0 <= i < self.next_idx ==> pos_le(#[trigger] self.slice@[i], self.cursor)
    }

    /// The slice is sorted, the tracked index is that of the first element
    /// after the cursor, and bit `k` of the buffer says whether the position
    /// `k` columns behind the cursor is present.
    pub closed spec fn wf(&self) -> bool {
        &&& strictly_sorted(self.slice@)
        &&& splits_at(self.slice@, self.cursor, self.next_idx as int)
        &&& self.buffer == window_bits(self.slice@, self.cursor.x as int, self.cursor.y as int)
    }

    /// What a well-formed cursor tracks is the first element after it.
    pub proof fn lemma_present(&self)
        requires
            self.wf(),
        ensures
            strictly_sorted(self.slice()),
            is_first_after(self.slice(), self.position(), self.present()),
    {
        let s = self.slice@;
        if self.next_idx < s.len() {
            let q = s[self.next_idx as int];
            assert forall|i: int| 0 <= i < s.len() && pos_lt(self.cursor, #[trigger] s[i]) implies pos_le(
                q,
                s[i],
            ) by {
                if i < self.next_idx {
                    assert(pos_le(s[i], self.cursor));
                }
                if i > self.next_idx {
                    assert(pos_lt(q, s[i]));
                }
            }
        }
    }

    /// Creates a cursor over the given slice, at the given position.
    pub fn new(slice: &'a [Pos2], cursor: Pos2) -> (value: Self)
        requires
            strictly_sorted(slice@),
        ensures
            value.wf(),
            value.slice() == slice@,
            value.position() == cursor,
    {
        let mut value = Self { slice, next_idx: 0, cursor: Pos2::default(), buffer: 0 };
        value.seek_from(cursor);
        value
    }

    /// Moves the cursor to the next column of its row.
    ///
    /// Returns the bit buffer: which of the last eight columns are present.
    pub fn next(&mut self) -> (buffer: u8)
        requires
            old(self).wf(),
            old(self).position().x < i32::MAX,
        ensures
            final(self).wf(),
            final(self).slice() == old(self).slice(),
            final(self).position() == (Pos2 {
                x: (old(self).position().x + 1) as i32,
                y: old(self).position().y,
            }),
            buffer == window_bits(
                final(self).slice(),
                final(self).position().x as int,
                final(self).position().y as int,
            ),
    {
        let ghost s = self.slice@;
        let ghost x = self.cursor.x as int;
        let ghost y = self.cursor.y as int;
        let ghost before = self.buffer;
        proof {
            lemma_step_right(s, self.cursor, self.next_idx as int);
            lemma_shift_window(s, x, y);
        }
        self.buffer = self.buffer << 1;
        self.cursor.x += 1;
        proof {
            let shifted = self.buffer;
            assert(shifted == (before * 2) % 256 && (shifted | 1) == shifted + 1) by (bit_vector)
                requires
                    shifted == before << 1u8,
            ;
        }
        if self.next_idx < self.slice.len() {
            let next = self.slice[self.next_idx];
            if next.x == self.cursor.x && next.y == self.cursor.y {
                self.next_idx += 1;
                self.buffer = self.buffer | 1;
            }
        }
        self.buffer
    }

    /// Moves the cursor to any position.
    ///
    /// Returns the bit buffer: which of the last eight columns are present.
    pub fn seek(&mut self, cursor: Pos2) -> (buffer: u8)
        requires
            old(self).wf(),
        ensures
            final(self).wf(),
            final(self).slice() == old(self).slice(),
            final(self).position() == cursor,
            buffer == window_bits(
                final(self).slice(),
                final(self).position().x as int,
                final(self).position().y as int,
            ),
    {
        self.seek_from(cursor)
    }

    /// Moves the cursor to any position, from a state in which the tracked
    /// index may be too low.
    fn seek_from(&mut self, cursor: Pos2) -> (buffer: u8)
        requires
            old(self).behind(),
        ensures
            final(self).wf(),
            final(self).slice == old(self).slice,
            final(self).cursor == cursor,
            buffer == final(self).buffer,
    {
        let mut found = false;
        if self.next_idx < self.slice.len() {
            let next = self.slice[self.next_idx];
            if !cursor.before(&self.cursor) && cursor.before(&next) {
                // the target lies between the previous and the next position
                found = true;
            } else if next.x == cursor.x && next.y == cursor.y {
                // the target is the next position
                self.next_idx = self.next_idx + 1;
                found = true;
            }
        }
        if !found {
            self.next_idx = upper_bound(self.slice, cursor);
        }
        self.cursor = cursor;
        self.reset_buffer();
        self.buffer
    }

    fn reset_buffer(&mut self)
        requires
            strictly_sorted(old(self).slice@),
            splits_at(old(self).slice@, old(self).cursor, old(self).next_idx as int),
        ensures
            final(self).wf(),
            final(self).slice == old(self).slice,
            final(self).cursor == old(self).cursor,
            final(self).next_idx == old(self).next_idx,
    {
        self.buffer = 0;
        let ghost s = self.slice@;
        let ghost x = self.cursor.x as int;
        let ghost y = self.cursor.y as int;
        let ghost mut d: int = 0;
        let mut i: usize = 0;
        proof {
            lemma_bit_added(s, x, y, 0);
            if self.next_idx == 0 {
                lemma_dead_between(s, self.cursor, 0, 0, 0, 8);
            }
        }
        // use the slice to figure out the states of the 8 bits
        while i < self.next_idx
            invariant_except_break
                0 <= d <= 8,
                i == self.next_idx ==> self.buffer == window_bits(s, x, y),
                self.buffer == partial_bits(s, x, y, d),
                forall|j: int|
                    0 <= j < self.next_idx - i ==> !((#[trigger] s[j]).y == y && s[j].x > x - d),
                forall|j: int|
                    self.next_idx - i <= j < self.next_idx ==> (#[trigger] s[j]).y == y && s[j].x
                        > x - d,
            invariant
                strictly_sorted(s),
                s == self.slice@,
                x == self.cursor.x,
                y == self.cursor.y,
                splits_at(s, self.cursor, self.next_idx as int),
                self.slice == old(self).slice,
                self.cursor == old(self).cursor,
                self.next_idx == old(self).next_idx,
                0 <= i <= self.next_idx,
            ensures
                self.buffer == window_bits(s, x, y),
            decreases self.next_idx - i,
        {
            let idx = self.next_idx - i - 1;
            let pos = self.slice[idx];
            assert(pos_le(s[idx as int], self.cursor));
            // anything eight or more columns back is out of the buffer's scope
            if pos.y != self.cursor.y || self.cursor.x as i64 - pos.x as i64 >= 8 {
                proof {
                    assert forall|j: int| 0 <= j < idx + 1 implies !((#[trigger] s[j]).y == y
                        && s[j].x > x - 8) by {
                        if j < idx {
                            assert(pos_lt(s[j], s[idx as int]));
                        }
                    }
                    lemma_dead_between(s, self.cursor, self.next_idx as int, idx + 1, d, 8);
                }
                break;
            }
            let offset: u8 = (self.cursor.x as i64 - pos.x as i64) as u8;
            let ghost before = self.buffer;
            self.buffer = self.buffer | (1u8 << offset);
            proof {
                assert forall|j: int| 0 <= j < idx + 1 implies !((#[trigger] s[j]).y == y
                    && s[j].x > x - offset) by {
                    if j < idx {
                        assert(pos_lt(s[j], s[idx as int]));
                    }
                }
                lemma_dead_between(s, self.cursor, self.next_idx as int, idx + 1, d, offset as int);
                assert(alive_at(s, x - offset, y));
                lemma_bit_added(s, x, y, offset as int);
                lemma_set_bit(before, offset);
                assert forall|j: int| 0 <= j < idx implies !((#[trigger] s[j]).y == y && s[j].x
                    > x - (offset + 1)) by {
                    assert(pos_lt(s[j], s[idx as int]));
                }
                d = offset + 1;
                if idx == 0 {
                    lemma_dead_between(s, self.cursor, self.next_idx as int, 0, d, 8);
                }
            }
            i += 1;
        }
    }

    /// The state of the last eight positions as bits: bit `k` says whether the
    /// position `k` columns behind the cursor is present in the slice.
    #[inline]
    pub fn bit_buffer(&self) -> (buffer: u8)
        requires
            self.wf(),
        ensures
            buffer == window_bits(
                self.slice(),
                self.position().x as int,
                self.position().y as int,
            ),
    {
        self.buffer
    }

    /// The next present position after the cursor.
    #[inline]
    pub fn next_present(&self) -> (present: Option<Pos2>)
        requires
            self.wf(),
        ensures
            present == self.present(),
            is_first_after(self.slice(), self.position(), present),
    {
        proof {
            self.lemma_present();
        }
        if self.next_idx < self.slice.len() {
            Some(self.slice[self.next_idx])
        } else {
            None
        }
    }

    /// The current position of the cursor.
    #[inline]
    pub fn cursor(&self) -> (cursor: Pos2)
        ensures
            cursor == self.position(),
    {
        self.cursor
    }
}

/// The smaller of two optional positions, where a present position always
/// wins over an absent one.
pub open spec fn option_min(a: Option<Pos2>, b: Option<Pos2>) -> Option<Pos2> {
    match (a, b) {
        (Some(a), Some(b)) => Some(
            if pos_lt(b, a) {
                b
            } else {
                a
            },
        ),
        (Some(a), None) => Some(a),
        (None, b) => b,
    }
}

/// Selects the minimum of two optional positions.
///
/// Unlike the order of `Option`, this never takes `None` for the minimum: a
/// comparison is made only where both are `Some`.
pub fn safe_option_min(a: Option<Pos2>, b: Option<Pos2>) -> (m: Option<Pos2>)
    ensures
        m == option_min(a, b),
{
    match (a, b) {
        (Some(a), Some(b)) => Some(
            if b.before(&a) {
                b
            } else {
                a
            },
        ),
        (Some(a), None) => Some(a),
        (None, b) => b,
    }
}

/// The position of row `r` of a cursor of `n` rows whose bottom row is at `p`.
pub open spec fn row_position(p: Pos2, n: int, r: int) -> Pos2 {
    Pos2 { x: p.x, y: (p.y - (n - 1 - r)) as i32 }
}

/// A cursor of `n` rows at `p` can skip on: the bottom row has a place as far
/// below the next present position of each row as it stands below that row.
pub open spec fn can_skip(s: Seq<Pos2>, p: Pos2, n: int) -> bool {
    forall|r: int, e: Pos2|
        0 <= r < n && #[trigger] is_first_after(s, row_position(p, n, r), Some(e)) ==> e.y + (n
            - 1 - r) <= i32::MAX
}

/// The bit buffers of `n` rows that end in the row of `p`, the topmost first,
/// each at the column of `p`.
pub open spec fn row_windows(s: Seq<Pos2>, p: Pos2, n: nat) -> Seq<u8> {
    Seq::new(n, |i: int| window_bits(s, p.x as int, p.y - (n - 1 - i)) as u8)
}

/// In column `x`, one of the `n` rows that end in row `y` holds an alive cell.
pub open spec fn meets(s: Seq<Pos2>, x: int, y: int, n: int) -> bool {
    exists|r: int| y - n < r <= y && #[trigger] alive_at(s, x, r)
}

/// The eight bits of `b` as text, the highest first.
pub open spec fn byte_bits(b: u8) -> Seq<char> {
    Seq::new(
        8,
        |i: int|
            if (b as int / bit_value(7 - i)) % 2 == 1 {
                '1'
            } else {
                '0'
            },
    )
}

/// The bit buffers as text: the bits of each, the highest first, and a space
/// after each.
pub open spec fn buffers_text(buffers: Seq<u8>) -> Seq<char>
    decreases buffers.len(),
{
    if buffers.len() == 0 {
        Seq::empty()
    } else {
        buffers_text(buffers.drop_last()) + byte_bits(buffers.last()).push(' ')
    }
}

/// Appends the eight bits of `b` to `out`, the highest first.
fn push_bits(out: &mut Vec<char>, b: u8)
    ensures
        final(out)@ == old(out)@ + byte_bits(b),
{
    let mut i: u8 = 0;
    while i < 8
        invariant
            0 <= i <= 8,
            out@ == old(out)@ + byte_bits(b).take(i as int),
        decreases 8 - i,
    {
        let mask = 0x80u8 >> i;
        assert({
            &&& i == 0 ==> (b & mask != 0) == ((b / 128) % 2 == 1)
            &&& i == 1 ==> (b & mask != 0) == ((b / 64) % 2 == 1)
            &&& i == 2 ==> (b & mask != 0) == ((b / 32) % 2 == 1)
            &&& i == 3 ==> (b & mask != 0) == ((b / 16) % 2 == 1)
            &&& i == 4 ==> (b & mask != 0) == ((b / 8) % 2 == 1)
            &&& i == 5 ==> (b & mask != 0) == ((b / 4) % 2 == 1)
            &&& i == 6 ==> (b & mask != 0) == ((b / 2) % 2 == 1)
            &&& i == 7 ==> (b & mask != 0) == (b % 2 == 1)
        }) by (bit_vector)
            requires
                i < 8,
                mask == 0x80u8 >> i,
        ;
        let bit = if b & mask != 0 {
            '1'
        } else {
            '0'
        };
        assert(bit == byte_bits(b)[i as int]);
        out.push(bit);
        assert(byte_bits(b).take(i + 1) =~= byte_bits(b).take(i as int).push(bit));
        assert(old(out)@ + byte_bits(b).take(i as int).push(bit) =~= (old(out)@ + byte_bits(
            b,
        ).take(i as int)).push(bit));
        i += 1;
    }
    assert(byte_bits(b).take(8) =~= byte_bits(b));
}

/// Several row cursors, one row apart, that move in lock-step. The last one is
/// the bottom row; its position is the position of the whole.
pub struct MultiRowPosCursor<'a> {
    slice: &'a [Pos2],
    cursors: Vec<PosCursor<'a>>,
    buffers: Vec<u8>,
}

impl<'a> MultiRowPosCursor<'a> {
    /// The number of rows.
    pub closed spec fn rows(&self) -> nat {
        self.cursors@.len()
    }

    /// The alive set that is scanned.
    pub closed spec fn slice(&self) -> Seq<Pos2> {
        self.slice@
    }

    /// The position of the bottom row's cursor; the origin where there is no row.
    pub closed spec fn position(&self) -> Pos2 {
        if self.cursors@.len() == 0 {
            Pos2 { x: 0, y: 0 }
        } else {
            self.cursors@.last().cursor
        }
    }

    /// The rows stand one below the other at one column, and each row's index
    /// and buffer are those of its position.
    pub closed spec fn wf(&self) -> bool {
        let n = self.cursors@.len() as int;
        &&& self.buffers@.len() == n
        &&& strictly_sorted(self.slice@)
        &&& n - 1 <= i32::MAX
        &&& forall|i: int|
            0 <= i < n ==> {
                let c = #[trigger] self.cursors@[i];
                &&& c.wf()
                &&& c.slice == self.slice
                &&& c.cursor.x == self.position().x
                &&& c.cursor.y == self.position().y - (n - 1 - i)
                &&& self.buffers@[i] == c.buffer
            }
    }

    /// The buffers are the windows of the rows.
    proof fn lemma_buffers(&self)
        requires
            self.wf(),
        ensures
            self.buffers@ == row_windows(self.slice(), self.position(), self.rows()),
    {
        let n = self.cursors@.len() as int;
        assert forall|i: int| 0 <= i < n implies self.buffers@[i] == row_windows(
            self.slice(),
            self.position(),
            self.rows(),
        )[i] by {
            let c = self.cursors@[i];
            assert(c.wf());
        }
        assert(self.buffers@ =~= row_windows(self.slice(), self.position(), self.rows()));
    }

    /// What a well-formed cursor says of its slice and of its rows.
    pub proof fn lemma_well_formed(&self)
        requires
            self.wf(),
        ensures
            strictly_sorted(self.slice()),
            self.rows() - 1 <= i32::MAX,
            self.rows() > 0 ==> self.position().y - (self.rows() - 1) >= i32::MIN,
    {
        if self.rows() > 0 {
            assert(self.cursors@[0].wf());
        }
    }

    /// The offset of row `i` of `n` from the bottom row: the last row has none,
    /// and those above it are negative in `y`.
    fn offset(n: usize, i: usize) -> (offset: Pos2)
        requires
            i < n,
            n - 1 <= i32::MAX,
        ensures
            offset.x == 0,
            offset.y == -(n - 1 - i),
    {
        Pos2 { x: 0, y: -((n - 1 - i) as i32) }
    }

    /// Creates a cursor of `n_cursors` rows whose bottom row is at the first
    /// element of the slice, or at the origin where the slice is empty.
    pub fn new(slice: &'a [Pos2], n_cursors: usize) -> (value: Self)
        requires
            strictly_sorted(slice@),
            n_cursors - 1 <= i32::MAX,
            slice@.len() > 0 ==> slice@[0].y - (n_cursors - 1) >= i32::MIN,
        ensures
            value.wf(),
            value.rows() == n_cursors,
            value.slice() == slice@,
            value.position() == (if n_cursors > 0 && slice@.len() > 0 {
                slice@[0]
            } else {
                Pos2 { x: 0, y: 0 }
            }),
    {
        let start = if slice.len() > 0 {
            slice[0]
        } else {
            Pos2::default()
        };
        // the bottom row comes last and has no offset from the start
        let mut cursors: Vec<PosCursor<'a>> = Vec::new();
        let mut buffers: Vec<u8> = Vec::new();
        let mut i: usize = 0;
        while i < n_cursors
            invariant
                strictly_sorted(slice@),
                n_cursors - 1 <= i32::MAX,
                slice@.len() > 0 ==> slice@[0].y - (n_cursors - 1) >= i32::MIN,
                start == (if slice@.len() > 0 {
                    slice@[0]
                } else {
                    Pos2 { x: 0, y: 0 }
                }),
                0 <= i <= n_cursors,
                cursors@.len() == i,
                buffers@.len() == i,
                forall|j: int|
                    0 <= j < i ==> {
                        let c = #[trigger] cursors@[j];
                        &&& c.wf()
                        &&& c.slice == slice
                        &&& c.cursor.x == start.x
                        &&& c.cursor.y == start.y - (n_cursors - 1 - j)
                        &&& buffers@[j] == c.buffer
                    },
            decreases n_cursors - i,
        {
            let offset = Self::offset(n_cursors, i);
            let cursor = PosCursor::new(slice, start + offset);
            buffers.push(cursor.bit_buffer());
            cursors.push(cursor);
            i += 1;
        }
        Self { slice, cursors, buffers }
    }

    /// The bit buffer of each row, the topmost first.
    #[inline]
    pub fn buffers(&self) -> (buffers: &[u8])
        requires
            self.wf(),
        ensures
            buffers@ == row_windows(self.slice(), self.position(), self.rows()),
    {
        proof {
            self.lemma_buffers();
        }
        self.buffers.as_slice()
    }

    /// Moves every row one column to the right.
    ///
    /// Returns the bit buffer of each row, the topmost first.
    pub fn next(&mut self) -> (buffers: &[u8])
        requires
            old(self).wf(),
            old(self).position().x < i32::MAX,
        ensures
            final(self).wf(),
            final(self).rows() == old(self).rows(),
            final(self).slice() == old(self).slice(),
            final(self).position() == (if old(self).rows() == 0 {
                old(self).position()
            } else {
                Pos2 { x: (old(self).position().x + 1) as i32, y: old(self).position().y }
            }),
            buffers@ == row_windows(
                final(self).slice(),
                final(self).position(),
                final(self).rows(),
            ),
    {
        let n = self.cursors.len();
        let ghost before = *self;
        let mut i: usize = 0;
        while i < n
            invariant
                before.wf(),
                before.position().x < i32::MAX,
                n == before.cursors@.len(),
                self.cursors@.len() == n,
                self.buffers@.len() == n,
                self.slice == before.slice,
                0 <= i <= n,
                forall|j: int|
                    0 <= j < i ==> {
                        let c = #[trigger] self.cursors@[j];
                        &&& c.wf()
                        &&& c.slice == before.slice
                        &&& c.cursor.x == before.position().x + 1
                        &&& c.cursor.y == before.position().y - (n - 1 - j)
                        &&& self.buffers@[j] == c.buffer
                    },
                forall|j: int| i <= j < n ==> self.cursors@[j] == #[trigger] before.cursors@[j],
            decreases n - i,
        {
            assert(before.cursors@[i as int].wf());
            let buffer = self.cursors[i].next();
            self.buffers[i] = buffer;
            i += 1;
        }
        self.buffers()
    }

    /// Moves the bottom row to `position`, and every other row to its place
    /// above it.
    ///
    /// Returns the bit buffer of each row, the topmost first.
    pub fn seek(&mut self, position: Pos2) -> (buffers: &[u8])
        requires
            old(self).wf(),
            position.y - (old(self).rows() - 1) >= i32::MIN,
        ensures
            final(self).wf(),
            final(self).rows() == old(self).rows(),
            final(self).slice() == old(self).slice(),
            final(self).position() == (if old(self).rows() == 0 {
                old(self).position()
            } else {
                position
            }),
            buffers@ == row_windows(
                final(self).slice(),
                final(self).position(),
                final(self).rows(),
            ),
    {
        let n = self.cursors.len();
        let ghost before = *self;
        let mut i: usize = 0;
        while i < n
            invariant
                before.wf(),
                position.y - (n - 1) >= i32::MIN,
                n == before.cursors@.len(),
                self.cursors@.len() == n,
                self.buffers@.len() == n,
                self.slice == before.slice,
                0 <= i <= n,
                forall|j: int|
                    0 <= j < i ==> {
                        let c = #[trigger] self.cursors@[j];
                        &&& c.wf()
                        &&& c.slice == before.slice
                        &&& c.cursor.x == position.x
                        &&& c.cursor.y == position.y - (n - 1 - j)
                        &&& self.buffers@[j] == c.buffer
                    },
                forall|j: int| i <= j < n ==> self.cursors@[j] == #[trigger] before.cursors@[j],
            decreases n - i,
        {
            assert(before.cursors@[i as int].wf());
            let offset = Self::offset(n, i);
            let buffer = self.cursors[i].seek(position + offset);
            self.buffers[i] = buffer;
            i += 1;
        }
        self.buffers()
    }

    /// Row `r` has a present position after its cursor.
    spec fn has_candidate(&self, r: int) -> bool {
        self.cursors@[r].next_idx < self.slice@.len()
    }

    /// Where the bottom row stands when row `r` stands on its next present
    /// position.
    spec fn candidate(&self, r: int) -> Pos2 {
        let e = self.slice@[self.cursors@[r].next_idx as int];
        Pos2 { x: e.x, y: (e.y + (self.cursors@.len() - 1 - r)) as i32 }
    }

    /// The candidate of every row lies within the coordinates.
    spec fn reaches(&self) -> bool {
        forall|r: int|
            0 <= r < self.cursors@.len() && #[trigger] self.has_candidate(r) ==> self.slice@[self.cursors@[r].next_idx as int].y
                + (self.cursors@.len() - 1 - r) <= i32::MAX
    }

    /// A cursor that can skip on has its candidates within the coordinates.
    proof fn lemma_reaches(&self)
        requires
            self.wf(),
            can_skip(self.slice(), self.position(), self.rows() as int),
        ensures
            self.reaches(),
    {
        let n = self.cursors@.len() as int;
        assert forall|r: int| 0 <= r < n && #[trigger] self.has_candidate(r) implies self.slice@[self.cursors@[r].next_idx as int].y
            + (n - 1 - r) <= i32::MAX by {
            let c = self.cursors@[r];
            assert(c.wf());
            c.lemma_present();
            assert(c.cursor == row_position(self.position(), n, r));
            assert(is_first_after(
                self.slice@,
                row_position(self.position(), n, r),
                Some(self.slice@[c.next_idx as int]),
            ));
        }
    }

    /// A position after the cursor at which a row meets an alive cell is at or
    /// after the candidate of that row.
    proof fn lemma_meeting_row(&self, x: int, y: int) -> (r: int)
        requires
            self.wf(),
            self.reaches(),
            precedes(self.position().x as int, self.position().y as int, x, y),
            meets(self.slice(), x, y, self.rows() as int),
        ensures
            0 <= r < self.rows(),
            self.has_candidate(r),
            !precedes(x, y, self.candidate(r).x as int, self.candidate(r).y as int),
    {
        let n = self.cursors@.len() as int;
        let s = self.slice@;
        let row = choose|row: int| y - n < row <= y && #[trigger] alive_at(s, x, row);
        let j = choose|j: int| 0 <= j < s.len() && (#[trigger] s[j]).x == x && s[j].y == row;
        let r = n - 1 - (y - row);
        let c = self.cursors@[r];
        assert(c.wf());
        assert(pos_lt(c.cursor, s[j]));
        if j < c.next_idx {
            assert(pos_le(s[j], c.cursor));
        }
        if j > c.next_idx {
            assert(pos_lt(s[c.next_idx as int], s[j]));
        }
        r
    }

    /// The least candidate is the closest position after the cursor at which a
    /// row meets an alive cell.
    proof fn lemma_closest(&self, t: Pos2, w: int)
        requires
            self.wf(),
            self.reaches(),
            0 <= w < self.rows(),
            self.has_candidate(w),
            t == self.candidate(w),
            forall|r: int|
                0 <= r < self.rows() && self.has_candidate(r) ==> pos_le(
                    t,
                    #[trigger] self.candidate(r),
                ),
        ensures
            precedes(self.position().x as int, self.position().y as int, t.x as int, t.y as int),
            meets(self.slice(), t.x as int, t.y as int, self.rows() as int),
            forall|x: int, y: int|
                precedes(self.position().x as int, self.position().y as int, x, y) && precedes(
                    x,
                    y,
                    t.x as int,
                    t.y as int,
                ) ==> !#[trigger] meets(self.slice(), x, y, self.rows() as int),
    {
        let n = self.cursors@.len() as int;
        let s = self.slice@;
        let c = self.cursors@[w];
        assert(c.wf());
        let e = s[c.next_idx as int];
        assert(pos_lt(c.cursor, e));
        assert(alive_at(s, t.x as int, e.y as int));
        assert forall|x: int, y: int|
            precedes(self.position().x as int, self.position().y as int, x, y) && precedes(
                x,
                y,
                t.x as int,
                t.y as int,
            ) implies !#[trigger] meets(self.slice(), x, y, self.rows() as int) by {
            if meets(self.slice(), x, y, self.rows() as int) {
                let r = self.lemma_meeting_row(x, y);
                assert(pos_le(t, self.candidate(r)));
            }
        }
    }

    /// Where no row has a candidate, no row meets an alive cell anywhere after
    /// the cursor.
    proof fn lemma_exhausted(&self)
        requires
            self.wf(),
            self.reaches(),
            forall|r: int| 0 <= r < self.rows() ==> !#[trigger] self.has_candidate(r),
        ensures
            forall|x: int, y: int|
                precedes(self.position().x as int, self.position().y as int, x, y)
                    ==> !#[trigger] meets(self.slice(), x, y, self.rows() as int),
    {
        assert forall|x: int, y: int|
            precedes(
                self.position().x as int,
                self.position().y as int,
                x,
                y,
            ) implies !#[trigger] meets(self.slice(), x, y, self.rows() as int) by {
            if meets(self.slice(), x, y, self.rows() as int) {
                let r = self.lemma_meeting_row(x, y);
            }
        }
    }

    /// Skips to the closest position after the cursor at which one of the rows
    /// stands on an alive cell.
    ///
    /// Returns the bit buffer of each row there, or `None` where no row has an
    /// alive cell left after its cursor; the cursor then stays where it is.
    pub fn seek_closest(&mut self) -> (buffers: Option<&[u8]>)
        requires
            old(self).wf(),
            can_skip(old(self).slice(), old(self).position(), old(self).rows() as int),
        ensures
            final(self).wf(),
            final(self).rows() == old(self).rows(),
            final(self).slice() == old(self).slice(),
            match buffers {
                Some(buffers) => {
                    &&& buffers@ == row_windows(
                        final(self).slice(),
                        final(self).position(),
                        final(self).rows(),
                    )
                    &&& precedes(
                        old(self).position().x as int,
                        old(self).position().y as int,
                        final(self).position().x as int,
                        final(self).position().y as int,
                    )
                    &&& meets(
                        old(self).slice(),
                        final(self).position().x as int,
                        final(self).position().y as int,
                        old(self).rows() as int,
                    )
                    &&& forall|x: int, y: int|
                        precedes(
                            old(self).position().x as int,
                            old(self).position().y as int,
                            x,
                            y,
                        ) && precedes(
                            x,
                            y,
                            final(self).position().x as int,
                            final(self).position().y as int,
                        ) ==> !#[trigger] meets(old(self).slice(), x, y, old(self).rows() as int)
                },
                None => {
                    &&& final(self).position() == old(self).position()
                    &&& forall|x: int, y: int|
                        precedes(
                            old(self).position().x as int,
                            old(self).position().y as int,
                            x,
                            y,
                        ) ==> !#[trigger] meets(old(self).slice(), x, y, old(self).rows() as int)
                },
            },
    {
        let n = self.cursors.len();
        proof {
            self.lemma_reaches();
        }
        // fold all rows into the closest present position
        let mut closest_next: Option<Pos2> = None;
        let ghost mut w: int = 0;
        let mut i: usize = 0;
        while i < n
            invariant
                self.wf(),
                self.reaches(),
                n == self.cursors@.len(),
                0 <= i <= n,
                closest_next is None ==> forall|r: int|
                    0 <= r < i ==> !#[trigger] self.has_candidate(r),
                closest_next is Some ==> {
                    &&& 0 <= w < i
                    &&& self.has_candidate(w)
                    &&& closest_next == Some(self.candidate(w))
                    &&& forall|r: int|
                        0 <= r < i && self.has_candidate(r) ==> pos_le(
                            closest_next->0,
                            #[trigger] self.candidate(r),
                        )
                },
            decreases n - i,
        {
            let offset = Self::offset(n, i);
            assert(self.cursors@[i as int].wf());
            assert(self.has_candidate(i as int) ==> self.slice@[self.cursors@[i as int].next_idx as int].y
                + (n - 1 - i) <= i32::MAX);
            let close_seek = match self.cursors[i].next_present() {
                Some(present) => Some(present - offset),
                None => None,
            };
            proof {
                if close_seek is Some {
                    assert(close_seek == Some(self.candidate(i as int)));
                    if option_min(closest_next, close_seek) != closest_next {
                        w = i as int;
                    }
                }
            }
            closest_next = safe_option_min(closest_next, close_seek);
            i += 1;
        }
        match closest_next {
            Some(closest) => {
                proof {
                    self.lemma_closest(closest, w);
                    self.lemma_well_formed();
                }
                // seek every row to its place at the closest position
                Some(self.seek(closest))
            },
            None => {
                proof {
                    self.lemma_exhausted();
                }
                None
            },
        }
    }

    /// The bit buffers of the rows as text, the topmost first.
    pub fn to_text(&self) -> (text: String)
        requires
            self.wf(),
        ensures
            text@ == buffers_text(row_windows(self.slice(), self.position(), self.rows())),
    {
        proof {
            self.lemma_buffers();
        }
        let mut text: Vec<char> = Vec::new();
        let mut i: usize = 0;
        while i < self.cursors.len()
            invariant
                self.wf(),
                0 <= i <= self.cursors@.len(),
                self.cursors@.len() == self.buffers@.len(),
                text@ == buffers_text(self.buffers@.take(i as int)),
            decreases self.cursors@.len() - i,
        {
            assert(self.cursors@[i as int].wf());
            assert(self.buffers@.take(i + 1).drop_last() =~= self.buffers@.take(i as int));
            let ghost before = text@;
            push_bits(&mut text, self.cursors[i].bit_buffer());
            text.push(' ');
            assert(text@ =~= before + byte_bits(self.buffers@[i as int]).push(' '));
            i += 1;
        }
        assert(self.buffers@.take(self.buffers@.len() as int) =~= self.buffers@);
        string_of(text.as_slice())
    }

    /// Returns the position of the bottom row's cursor.
    #[inline]
    pub fn cursor(&self) -> (cursor: Pos2)
        ensures
            cursor == self.position(),
    {
        let n = self.cursors.len();
        if n == 0 {
            Pos2::default()
        } else {
            self.cursors[n - 1].cursor()
        }
    }
}

} // verus!
