//! The console view: which part of the plane is shown, and what the keys do.

use crate::engine::window::inside;
use crate::engine::GameOfLife;
use crate::pos::Pos2;
use vstd::prelude::*;

verus! {

/// What a key press asked for.
#[derive(Debug, Clone, Copy, PartialEq, Eq, Structural)]
pub enum ConsoleCommand {
    Exit,
    Handled,
}

/// The keys that the console knows.
#[derive(Debug, Clone, Copy, PartialEq, Eq, Structural)]
pub enum Key {
    /// The key to interrupt the program.
    Interrupt,
    Up,
    Down,
    Left,
    Right,
    /// Any other key, or any other event.
    Other,
}

/// The top left corner of the view after the key `key`: the arrows move it
/// by a cell.
pub open spec fn moved(tl: Pos2, key: Key) -> Pos2 {
    match key {
        Key::Up => Pos2 { x: tl.x, y: (tl.y - 1) as i32 },
        Key::Down => Pos2 { x: tl.x, y: (tl.y + 1) as i32 },
        Key::Left => Pos2 { x: (tl.x - 1) as i32, y: tl.y },
        Key::Right => Pos2 { x: (tl.x + 1) as i32, y: tl.y },
        _ => tl,
    }
}

/// The view can follow the key `key`: it does not leave the coordinates.
pub open spec fn can_move(tl: Pos2, key: Key) -> bool {
    match key {
        Key::Up => tl.y > i32::MIN,
        Key::Down => tl.y < i32::MAX,
        Key::Left => tl.x > i32::MIN,
        Key::Right => tl.x < i32::MAX,
        _ => true,
    }
}

/// The console view of a game.
pub struct ConsoleRender {
    tl: Pos2,
    report: String,
}

impl ConsoleRender {
    /// The top left corner of the view.
    pub closed spec fn top_left(&self) -> Pos2 {
        self.tl
    }

    /// The report in the footer.
    pub closed spec fn footer(&self) -> Seq<char> {
        self.report@
    }

    /// A view at the origin with an empty footer.
    pub fn new() -> (console: Self)
        ensures
            console.top_left() == (Pos2 { x: 0, y: 0 }),
            console.footer() == Seq::<char>::empty(),
    {
        Self { tl: Pos2::default(), report: String::new() }
    }

    /// The top left corner of the view.
    pub fn corner(&self) -> (tl: Pos2)
        ensures
            tl == self.top_left(),
    {
        self.tl
    }

    /// The report in the footer.
    pub fn report(&self) -> (report: &str)
        ensures
            report@ == self.footer(),
    {
        self.report.as_str()
    }

    /// Says whether the view can follow the key `key`.
    pub fn can_handle(&self, key: Key) -> (can: bool)
        ensures
            can == can_move(self.top_left(), key),
    {
        match key {
            Key::Up => self.tl.y > i32::MIN,
            Key::Down => self.tl.y < i32::MAX,
            Key::Left => self.tl.x > i32::MIN,
            Key::Right => self.tl.x < i32::MAX,
            _ => true,
        }
    }

    /// Takes a key press: the arrows move the view, the interrupt key asks to
    /// exit.
    pub fn handle_key(&mut self, key: Key) -> (command: ConsoleCommand)
        requires
            can_move(old(self).top_left(), key),
        ensures
            final(self).top_left() == moved(old(self).top_left(), key),
            final(self).footer() == old(self).footer(),
            command == (if key == Key::Interrupt {
                ConsoleCommand::Exit
            } else {
                ConsoleCommand::Handled
            }),
    {
        match key {
            Key::Interrupt => {
                return ConsoleCommand::Exit;
            },
            Key::Up => self.tl.y -= 1,
            Key::Down => self.tl.y += 1,
            Key::Left => self.tl.x -= 1,
            Key::Right => self.tl.x += 1,
            Key::Other => {},
        }
        ConsoleCommand::Handled
    }

    /// The places on a screen of `cols` columns and `rows` rows at which an
    /// alive cell is shown, as column and row, in the order of the cells.
    pub fn screen_cells(&self, game: &GameOfLife, cols: u16, rows: u16) -> (places: Vec<(u16, u16)>)
        requires
            self.top_left().x + cols <= i32::MAX,
            self.top_left().y + rows <= i32::MAX,
        ensures
            places@ == on_screen(
                game@.filter(
                    inside(
                        self.top_left(),
                        Pos2 {
                            x: (self.top_left().x + cols) as i32,
                            y: (self.top_left().y + rows) as i32,
                        },
                    ),
                ),
                self.top_left(),
            ),
    {
        let br = self.tl + Pos2 { x: cols as i32, y: rows as i32 };
        let cells = game.window(self.tl, br).iter();
        proof {
            assert forall|j: int| 0 <= j < cells@.len() implies self.tl.x <= (#[trigger] cells@[j]).x
                < br.x && self.tl.y <= cells@[j].y < br.y by {
                game@.lemma_filter_pred(inside(self.tl, br), j);
            }
        }
        let mut places: Vec<(u16, u16)> = Vec::new();
        let mut i: usize = 0;
        while i < cells.len()
            invariant
                0 <= i <= cells@.len(),
                br.x == self.tl.x + cols,
                br.y == self.tl.y + rows,
                forall|j: int|
                    0 <= j < cells@.len() ==> self.tl.x <= (#[trigger] cells@[j]).x < br.x
                        && self.tl.y <= cells@[j].y < br.y,
                places@ == on_screen(cells@, self.tl).take(i as int),
            decreases cells@.len() - i,
        {
            let cell = cells[i] - self.tl;
            places.push((cell.x as u16, cell.y as u16));
            assert(places@ =~= on_screen(cells@, self.tl).take(i + 1));
            i += 1;
        }
        assert(on_screen(cells@, self.tl).take(cells@.len() as int) =~= on_screen(cells@, self.tl));
        places
    }

    pub fn set_report(&mut self, report: String)
        ensures
            final(self).footer() == report@,
            final(self).top_left() == old(self).top_left(),
    {
        self.report = report;
    }
}

/// The places of `cells` on a screen whose top left corner shows `tl`.
pub open spec fn on_screen(cells: Seq<Pos2>, tl: Pos2) -> Seq<(u16, u16)> {
    Seq::new(cells.len(), |i: int| ((cells[i].x - tl.x) as u16, (cells[i].y - tl.y) as u16))
}

} // verus!
