//! The window query: the alive cells of a rectangle.

use crate::engine::life::strictly_sorted;
use crate::engine::GameOfLife;
use crate::pos::{pos_lt, Pos2};
use crate::text::string_of;
use vstd::prelude::*;

verus! {

/// The cell `p` lies in the rectangle from `tl` to `br`, without its right
/// column and bottom row.
pub open spec fn in_window(tl: Pos2, br: Pos2, p: Pos2) -> bool {
    tl.x <= p.x < br.x && tl.y <= p.y < br.y
}

/// The cells of the rectangle from `tl` to `br`.
pub open spec fn inside(tl: Pos2, br: Pos2) -> spec_fn(Pos2) -> bool {
    |p: Pos2| in_window(tl, br, p)
}

/// The character that stands for an alive cell.
pub const BLOCK: char = '\u{2588}';

/// `n` times the character `c`; nothing where `n` is negative.
pub open spec fn repeated(c: char, n: int) -> Seq<char> {
    Seq::new(
        if n < 0 {
            0nat
        } else {
            n as nat
        },
        |i: int| c,
    )
}

/// The picture of `cells` in a window with the top left corner `tl`: before
/// each cell the line feeds down to its row and the spaces up to its column,
/// from the cell before it or, in a new row, from the left edge.
pub open spec fn picture(cells: Seq<Pos2>, tl: Pos2) -> Seq<char>
    decreases cells.len(),
{
    if cells.len() == 0 {
        Seq::empty()
    } else {
        let before = cells.drop_last();
        let alive = cells.last();
        let (last_x, last_y) = if before.len() == 0 {
            (tl.x - 1, tl.y as int)
        } else {
            (before.last().x as int, before.last().y as int)
        };
        let lines = alive.y - last_y;
        let padding = if lines == 0 {
            alive.x - last_x - 1
        } else {
            alive.x - tl.x
        };
        picture(before, tl) + repeated('\n', lines) + repeated(' ', padding).push(BLOCK)
    }
}

/// Appends `n` times the character `c` to `out`.
fn push_repeated(out: &mut Vec<char>, c: char, n: i64)
    ensures
        final(out)@ == old(out)@ + repeated(c, n as int),
{
    let mut i: i64 = 0;
    while i < n
        invariant
            0 <= i,
            i <= n || i == 0,
            out@ == old(out)@ + repeated(c, i as int),
        decreases n - i,
    {
        out.push(c);
        i += 1;
        assert(out@ =~= old(out)@ + repeated(c, i as int));
    }
    assert(out@ =~= old(out)@ + repeated(c, n as int));
}

/// A rectangle of the plane, as a view of a game.
pub struct GameEngineWindow<'a> {
    tl: Pos2,
    br: Pos2,
    engine: &'a GameOfLife,
}

impl<'a> GameEngineWindow<'a> {
    /// The alive cells of the game.
    pub closed spec fn engine(&self) -> Seq<Pos2> {
        self.engine@
    }

    /// The top left corner.
    pub closed spec fn top_left(&self) -> Pos2 {
        self.tl
    }

    /// The corner after the bottom right one.
    pub closed spec fn bottom_right(&self) -> Pos2 {
        self.br
    }

    pub fn new(engine: &'a GameOfLife, top_left: Pos2, bottom_right: Pos2) -> (window: Self)
        ensures
            window.engine() == engine@,
            window.top_left() == top_left,
            window.bottom_right() == bottom_right,
    {
        Self { tl: top_left, br: bottom_right, engine }
    }

    /// The alive cells of the window, in the order of the alive set.
    pub fn iter(&self) -> (cells: Vec<Pos2>)
        ensures
            cells@ == self.engine().filter(inside(self.top_left(), self.bottom_right())),
            strictly_sorted(cells@),
    {
        let alive = self.engine.alive();
        let mut cells: Vec<Pos2> = Vec::new();
        let mut i: usize = 0;
        while i < alive.len()
            invariant
                0 <= i <= alive@.len(),
                alive@ == self.engine@,
                cells@ == alive@.take(i as int).filter(inside(self.tl, self.br)),
                strictly_sorted(alive@),
                strictly_sorted(cells@),
                forall|j: int, k: int|
                    0 <= j < cells@.len() && i <= k < alive@.len() ==> pos_lt(
                        #[trigger] cells@[j],
                        #[trigger] alive@[k],
                    ),
            decreases alive@.len() - i,
        {
            let pos = alive[i];
            proof {
                reveal(Seq::filter);
                assert(alive@.take(i + 1).drop_last() =~= alive@.take(i as int));
            }
            if self.tl.x <= pos.x && pos.x < self.br.x && self.tl.y <= pos.y && pos.y < self.br.y {
                cells.push(pos);
            }
            i += 1;
        }
        proof {
            assert(alive@.take(alive@.len() as int) =~= alive@);
        }
        cells
    }

    /// The picture of the window: a block for each alive cell, in lines.
    pub fn to_text(&self) -> (text: String)
        ensures
            text@ == picture(
                self.engine().filter(inside(self.top_left(), self.bottom_right())),
                self.top_left(),
            ),
    {
        let cells = self.iter();
        let mut text: Vec<char> = Vec::new();
        let mut last_x: i64 = self.tl.x as i64 - 1;
        let mut last_y: i64 = self.tl.y as i64;
        let mut i: usize = 0;
        while i < cells.len()
            invariant
                0 <= i <= cells@.len(),
                text@ == picture(cells@.take(i as int), self.tl),
                last_x == (if i == 0 {
                    self.tl.x - 1
                } else {
                    cells@[i - 1].x as int
                }),
                last_y == (if i == 0 {
                    self.tl.y as int
                } else {
                    cells@[i - 1].y as int
                }),
            decreases cells@.len() - i,
        {
            let alive = cells[i];
            proof {
                assert(cells@.take(i + 1).drop_last() =~= cells@.take(i as int));
                if i > 0 {
                    assert(cells@.take(i as int).last() == cells@[i - 1]);
                }
            }
            // the number of lines and of padding spaces before the cell
            let lines = alive.y as i64 - last_y;
            let padding = if lines == 0 {
                alive.x as i64 - last_x - 1
            } else {
                alive.x as i64 - self.tl.x as i64
            };
            let ghost before = text@;
            push_repeated(&mut text, '\n', lines);
            push_repeated(&mut text, ' ', padding);
            text.push(BLOCK);
            assert(text@ =~= before + repeated('\n', lines as int) + repeated(
                ' ',
                padding as int,
            ).push(BLOCK));
            last_x = alive.x as i64;
            last_y = alive.y as i64;
            i += 1;
        }
        assert(cells@.take(cells@.len() as int) =~= cells@);
        string_of(text.as_slice())
    }
}

} // verus!
