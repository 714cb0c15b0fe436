//! The options of a run, and what follows from them.

use crate::engine::life::{alive_at, precedes, strictly_sorted};
use crate::pos::{pos_lt, Pos2};
use crate::text::{chars_of, parse_i32, parse_unsigned, parsed_i32, parsed_unsigned};
use rand::Rng;
use vstd::prelude::*;

verus! {

/// The generations of a run that is given no number of them.
pub const UNLIMITED: usize = usize::MAX;

/// The milliseconds between generations in console mode.
pub const CONSOLE_SLEEP: u64 = 100;

/// The width and height of the grid where none is given.
pub const DEFAULT_SIZE: i32 = 500;

/// How the grid is filled at the start.
#[derive(Debug, Clone, Copy, PartialEq, Eq, Structural)]
pub enum FillMode {
    /// Each cell is alive or dead by the toss of a coin.
    Random,
    /// The cells of a chessboard's one colour are alive.
    Alternating,
    /// Every cell is alive.
    All,
    /// No cell is alive.
    Empty,
}

/// The fill mode of the name `name`; that of no name is `Random`. `None`
/// where the name is that of no mode.
pub open spec fn fill_mode_of(name: Option<Seq<char>>) -> Option<FillMode> {
    match name {
        None => Some(FillMode::Random),
        Some(name) => if name == "random"@ {
            Some(FillMode::Random)
        } else if name == "alternating"@ {
            Some(FillMode::Alternating)
        } else if name == "all"@ {
            Some(FillMode::All)
        } else if name == "empty"@ {
            Some(FillMode::Empty)
        } else {
            None
        },
    }
}

/// Whether the cell `(x, y)` is alive in a grid filled in the mode `mode`,
/// where the coin fell as `coin` says.
pub open spec fn filled(mode: FillMode, x: int, y: int, coin: bool) -> bool {
    match mode {
        FillMode::Random => coin,
        FillMode::Alternating => (x + y) % 2 == 0,
        FillMode::All => true,
        FillMode::Empty => false,
    }
}

/// Says whether the cell `(x, y)` is alive in a grid filled in the mode
/// `mode`, where the coin fell as `coin` says.
pub fn fill_cell(mode: FillMode, x: i32, y: i32, coin: bool) -> (alive: bool)
    ensures
        alive == filled(mode, x as int, y as int, coin),
{
    match mode {
        FillMode::Random => coin,
        FillMode::Alternating => (x as i64 + y as i64) % 2 == 0,
        FillMode::All => true,
        FillMode::Empty => false,
    }
}

/// `rand::rng` and `Rng::random_ratio`: tosses a coin that comes up with the
/// odds of `numerator` in `denominator`. Nothing is claimed of how it falls.
#[verifier::external_body]
fn toss(numerator: u32, denominator: u32) -> bool
    requires
        0 < denominator,
        numerator <= denominator,
{
    rand::rng().random_ratio(numerator, denominator)
}

/// Says whether two texts are the same.
fn same(a: &str, b: &str) -> (same: bool)
    ensures
        same == (a@ == b@),
{
    let left = chars_of(a);
    let right = chars_of(b);
    if left.len() != right.len() {
        return false;
    }
    let mut i: usize = 0;
    while i < left.len()
        invariant
            left@ == a@,
            right@ == b@,
            0 <= i <= left@.len(),
            left@.len() == right@.len(),
            left@.take(i as int) == right@.take(i as int),
        decreases left@.len() - i,
    {
        if left[i] != right[i] {
            return false;
        }
        assert(left@.take(i + 1) =~= left@.take(i as int).push(left@[i as int]));
        assert(right@.take(i + 1) =~= right@.take(i as int).push(right@[i as int]));
        i += 1;
    }
    assert(left@.take(left@.len() as int) =~= left@);
    assert(right@.take(right@.len() as int) =~= right@);
    true
}

/// The number of an option, as it was given.
#[derive(Debug, PartialEq, Eq, Structural)]
pub enum Given<T> {
    /// The option was not given.
    Missing,
    /// The option was given this number.
    Number(T),
    /// The option was given something that is no number of its kind.
    Invalid,
}

/// The text of an option as characters.
pub open spec fn text_of(option: Option<String>) -> Option<Seq<char>> {
    match option {
        Some(text) => Some(text@),
        None => None,
    }
}

/// The 32-bit number that an option was given.
pub open spec fn given_i32(text: Option<Seq<char>>) -> Given<i32> {
    match text {
        None => Given::Missing,
        Some(text) => match parsed_i32(text) {
            Some(number) => Given::Number(number as i32),
            None => Given::Invalid,
        },
    }
}

/// The number up to `max` that an option was given.
pub open spec fn given_unsigned(text: Option<Seq<char>>, max: int) -> Given<u64> {
    match text {
        None => Given::Missing,
        Some(text) => match parsed_unsigned(text, max) {
            Some(number) => Given::Number(number as u64),
            None => Given::Invalid,
        },
    }
}

fn read_i32(option: &Option<String>) -> (given: Given<i32>)
    ensures
        given == given_i32(text_of(*option)),
{
    match option {
        None => Given::Missing,
        Some(text) => match parse_i32(chars_of(text.as_str()).as_slice()) {
            Some(number) => Given::Number(number),
            None => Given::Invalid,
        },
    }
}

fn read_unsigned(option: &Option<String>, max: u64) -> (given: Given<u64>)
    ensures
        given == given_unsigned(text_of(*option), max as int),
{
    match option {
        None => Given::Missing,
        Some(text) => match parse_unsigned(chars_of(text.as_str()).as_slice(), max) {
            Some(number) => Given::Number(number),
            None => Given::Invalid,
        },
    }
}

/// The options of a run, as they were given.
#[derive(Debug)]
pub struct Args {
    /// Run in console mode.
    pub console: bool,
    /// The file to write the last generation to.
    pub output: Option<String>,
    /// The file to read the first generation from.
    pub input: Option<String>,
    /// The width of the grid.
    pub width: Option<String>,
    /// The height of the grid.
    pub height: Option<String>,
    /// The name of the fill mode.
    pub fill: Option<String>,
    /// The number of worker threads; 0 for as many as the machine offers.
    pub threads: Option<String>,
    /// The milliseconds to sleep between generations.
    pub sleep: Option<String>,
    /// The number of generations.
    pub gens: Option<String>,
}

impl Args {
    /// The name of the fill mode as characters.
    pub open spec fn fill_name(&self) -> Option<Seq<char>> {
        text_of(self.fill)
    }

    /// The width that was given.
    pub fn width(&self) -> (width: Given<i32>)
        ensures
            width == given_i32(text_of(self.width)),
    {
        read_i32(&self.width)
    }

    /// The height that was given.
    pub fn height(&self) -> (height: Given<i32>)
        ensures
            height == given_i32(text_of(self.height)),
    {
        read_i32(&self.height)
    }

    /// The number of generations that was given.
    pub fn gens_given(&self) -> (gens: Given<u64>)
        ensures
            gens == given_unsigned(text_of(self.gens), usize::MAX as int),
    {
        read_unsigned(&self.gens, usize::MAX as u64)
    }

    /// The milliseconds of sleep that were given.
    pub fn sleep_given(&self) -> (millis: Given<u64>)
        ensures
            millis == given_unsigned(text_of(self.sleep), u64::MAX as int),
    {
        read_unsigned(&self.sleep, u64::MAX)
    }

    /// The number of worker threads that was given.
    pub fn threads_given(&self) -> (threads: Given<u64>)
        ensures
            threads == given_unsigned(text_of(self.threads), usize::MAX as int),
    {
        read_unsigned(&self.threads, usize::MAX as u64)
    }

    pub fn console(&self) -> (console: bool)
        ensures
            console == self.console,
    {
        self.console
    }

    /// The number of generations; without end where none was given.
    pub fn generations(&self) -> (gens: usize)
        requires
            !(given_unsigned(text_of(self.gens), usize::MAX as int) is Invalid),
        ensures
            gens == match given_unsigned(text_of(self.gens), usize::MAX as int) {
                Given::Number(gens) => gens as usize,
                _ => UNLIMITED,
            },
    {
        match self.gens_given() {
            Given::Number(gens) => gens as usize,
            _ => UNLIMITED,
        }
    }

    /// The milliseconds to sleep between generations: those given, or a
    /// tenth of a second in console mode, or none.
    pub fn sleep(&self) -> (millis: Option<u64>)
        requires
            !(given_unsigned(text_of(self.sleep), u64::MAX as int) is Invalid),
        ensures
            millis == match given_unsigned(text_of(self.sleep), u64::MAX as int) {
                Given::Number(millis) => Some(millis),
                _ => if self.console {
                    Some(CONSOLE_SLEEP)
                } else {
                    None
                },
            },
    {
        match self.sleep_given() {
            Given::Number(millis) => Some(millis),
            _ => if self.console {
                Some(CONSOLE_SLEEP)
            } else {
                None
            },
        }
    }

    /// The number of worker threads on a machine that offers `available` of
    /// them: one where none is asked for, and all where 0 is.
    pub fn threads(&self, available: usize) -> (threads: usize)
        requires
            !(given_unsigned(text_of(self.threads), usize::MAX as int) is Invalid),
        ensures
            threads == match given_unsigned(text_of(self.threads), usize::MAX as int) {
                Given::Number(threads) => if threads == 0 {
                    available
                } else {
                    threads as usize
                },
                _ => 1,
            },
    {
        match self.threads_given() {
            Given::Number(0) => available,
            Given::Number(value) => value as usize,
            _ => 1,
        }
    }

    /// The size of the grid: what was given of it, and for the rest the size
    /// of the terminal in console mode, and the default size without.
    pub fn grid_size(&self, terminal: (u16, u16)) -> (size: (i32, i32))
        requires
            !(given_i32(text_of(self.width)) is Invalid),
            !(given_i32(text_of(self.height)) is Invalid),
        ensures
            size.0 == match given_i32(text_of(self.width)) {
                Given::Number(width) => width as int,
                _ => if self.console {
                    terminal.0 as int
                } else {
                    DEFAULT_SIZE as int
                },
            },
            size.1 == match given_i32(text_of(self.height)) {
                Given::Number(height) => height as int,
                _ => if self.console {
                    terminal.1 as int
                } else {
                    DEFAULT_SIZE as int
                },
            },
    {
        let default = if self.console {
            (terminal.0 as i32, terminal.1 as i32)
        } else {
            (DEFAULT_SIZE, DEFAULT_SIZE)
        };
        (
            match self.width() {
                Given::Number(width) => width,
                _ => default.0,
            },
            match self.height() {
                Given::Number(height) => height,
                _ => default.1,
            },
        )
    }

    /// The fill mode, or `None` where the name given is that of no mode.
    pub fn fill_mode(&self) -> (mode: Option<FillMode>)
        ensures
            mode == fill_mode_of(self.fill_name()),
    {
        match &self.fill {
            None => Some(FillMode::Random),
            Some(name) => {
                if same(name.as_str(), "random") {
                    Some(FillMode::Random)
                } else if same(name.as_str(), "alternating") {
                    Some(FillMode::Alternating)
                } else if same(name.as_str(), "all") {
                    Some(FillMode::All)
                } else if same(name.as_str(), "empty") {
                    Some(FillMode::Empty)
                } else {
                    None
                }
            },
        }
    }

    /// Says whether the cell `(x, y)` is alive at the start. In the mode
    /// `Random` a coin is tossed for it.
    pub fn fill_is_alive(&self, x: i32, y: i32) -> (alive: bool)
        requires
            fill_mode_of(self.fill_name()) is Some,
        ensures
            fill_mode_of(self.fill_name()) != Some(FillMode::Random) ==> alive == filled(
                fill_mode_of(self.fill_name())->0,
                x as int,
                y as int,
                false,
            ),
    {
        match self.fill_mode() {
            Some(FillMode::Random) => fill_cell(FillMode::Random, x, y, toss(1, 2)),
            Some(mode) => fill_cell(mode, x, y, false),
            None => false,
        }
    }

    pub fn output_file(&self) -> (file: Option<String>)
        ensures
            file is Some == self.output is Some,
            file is Some ==> file->0@ == self.output->0@,
    {
        match &self.output {
            Some(file) => Some(file.clone()),
            None => None,
        }
    }

    pub fn input_file(&self) -> (file: Option<String>)
        ensures
            file is Some == self.input is Some,
            file is Some ==> file->0@ == self.input->0@,
    {
        match &self.input {
            Some(file) => Some(file.clone()),
            None => None,
        }
    }

    /// Fills a grid of `grid_w` columns and `grid_h` rows from the origin on,
    /// and returns its alive cells in order.
    pub fn fill_grid(&self, grid_w: i32, grid_h: i32) -> (alive: Vec<Pos2>)
        requires
            fill_mode_of(self.fill_name()) is Some,
        ensures
            strictly_sorted(alive@),
            forall|x: int, y: int| #[trigger]
                alive_at(alive@, x, y) ==> 0 <= x < grid_w && 0 <= y < grid_h,
            fill_mode_of(self.fill_name()) != Some(FillMode::Random) ==> forall|x: int, y: int|
                0 <= x < grid_w && 0 <= y < grid_h ==> #[trigger] alive_at(alive@, x, y) == filled(
                    fill_mode_of(self.fill_name())->0,
                    x,
                    y,
                    false,
                ),
    {
        let ghost mode = fill_mode_of(self.fill_name())->0;
        let mut alive: Vec<Pos2> = Vec::new();
        let mut y: i32 = 0;
        while y < grid_h
            invariant
                fill_mode_of(self.fill_name()) == Some(mode),
                0 <= y,
                y <= grid_h || y == 0,
                filled_upto(alive@, mode, grid_w as int, 0, y as int),
            decreases grid_h - y,
        {
            let mut x: i32 = 0;
            while x < grid_w
                invariant
                    fill_mode_of(self.fill_name()) == Some(mode),
                    0 <= y < grid_h,
                    0 <= x,
                    x <= grid_w || x == 0,
                    filled_upto(alive@, mode, grid_w as int, x as int, y as int),
                decreases grid_w - x,
            {
                let ghost before = alive@;
                if self.fill_is_alive(x, y) {
                    alive.push(Pos2 { x, y });
                }
                proof {
                    assert(alive@ == before || alive@.len() == before.len() + 1);
                    lemma_filled_next(before, alive@, mode, grid_w as int, x as int, y as int);
                }
                x += 1;
            }
            proof {
                lemma_filled_row(alive@, mode, grid_w as int, x as int, y as int);
            }
            y += 1;
        }
        proof {
            lemma_filled_all(alive@, mode, grid_w as int, grid_h as int, y as int);
        }
        alive
    }
}

/// `alive` holds, in order, the alive cells of the grid of width `w` that
/// come before the cell `(x, y)`: all of them where the fill mode decides, and
/// some of them where the coin does.
pub open spec fn filled_upto(alive: Seq<Pos2>, mode: FillMode, w: int, x: int, y: int) -> bool {
    &&& strictly_sorted(alive)
    &&& forall|i: int|
        0 <= i < alive.len() ==> 0 <= (#[trigger] alive[i]).x < w && 0 <= alive[i].y && precedes(
            alive[i].x as int,
            alive[i].y as int,
            x,
            y,
        )
    &&& mode != FillMode::Random ==> forall|cx: int, cy: int|
        0 <= cx < w && 0 <= cy && precedes(cx, cy, x, y) ==> #[trigger] alive_at(alive, cx, cy)
            == filled(mode, cx, cy, false)
}

/// The grid stays filled in order when the next cell of a row is decided.
proof fn lemma_filled_next(
    before: Seq<Pos2>,
    after: Seq<Pos2>,
    mode: FillMode,
    w: int,
    x: int,
    y: int,
)
    requires
        0 <= x < w,
        0 <= y,
        i32::MIN <= x <= i32::MAX,
        i32::MIN <= y <= i32::MAX,
        filled_upto(before, mode, w, x, y),
        after == before || after == before.push(Pos2 { x: x as i32, y: y as i32 }),
        mode != FillMode::Random ==> (after != before) == filled(mode, x, y, false),
    ensures
        filled_upto(after, mode, w, x + 1, y),
{
    let cell = Pos2 { x: x as i32, y: y as i32 };
    if after != before {
        assert(after[before.len() as int] == cell);
        assert forall|i: int, j: int| 0 <= i < j < after.len() implies pos_lt(
            #[trigger] after[i],
            #[trigger] after[j],
        ) by {
            assert(after[i] == before[i]);
            if j < before.len() {
                assert(after[j] == before[j]);
            }
        }
        assert forall|i: int| 0 <= i < after.len() implies 0 <= (#[trigger] after[i]).x < w && 0
            <= after[i].y && precedes(after[i].x as int, after[i].y as int, x + 1, y) by {
            if i < before.len() {
                assert(after[i] == before[i]);
            }
        }
    }
    if mode != FillMode::Random {
        assert forall|cx: int, cy: int|
            0 <= cx < w && 0 <= cy && precedes(cx, cy, x + 1, y) implies #[trigger] alive_at(
            after,
            cx,
            cy,
        ) == filled(mode, cx, cy, false) by {
            if alive_at(before, cx, cy) {
                let i = choose|i: int|
                    0 <= i < before.len() && (#[trigger] before[i]).x == cx && before[i].y == cy;
                assert(after[i] == before[i]);
            }
            if alive_at(after, cx, cy) {
                let i = choose|i: int|
                    0 <= i < after.len() && (#[trigger] after[i]).x == cx && after[i].y == cy;
                if i < before.len() {
                    assert(after[i] == before[i]);
                    assert(alive_at(before, cx, cy));
                }
            }
        }
    }
}

/// A grid filled up to the end of a row is filled up to the start of the next.
proof fn lemma_filled_row(alive: Seq<Pos2>, mode: FillMode, w: int, x: int, y: int)
    requires
        0 <= x,
        x >= w,
        filled_upto(alive, mode, w, x, y),
    ensures
        filled_upto(alive, mode, w, 0, y + 1),
{
}

/// A grid filled up to its last row holds its alive cells and no others.
proof fn lemma_filled_all(alive: Seq<Pos2>, mode: FillMode, w: int, h: int, y: int)
    requires
        0 <= y,
        y >= h,
        y <= h || y == 0,
        filled_upto(alive, mode, w, 0, y),
    ensures
        forall|cx: int, cy: int| #[trigger] alive_at(alive, cx, cy) ==> 0 <= cx < w && 0 <= cy < h,
        mode != FillMode::Random ==> forall|cx: int, cy: int|
            0 <= cx < w && 0 <= cy < h ==> #[trigger] alive_at(alive, cx, cy) == filled(
                mode,
                cx,
                cy,
                false,
            ),
{
    assert forall|cx: int, cy: int| #[trigger] alive_at(alive, cx, cy) implies 0 <= cx < w && 0
        <= cy < h by {
        let i = choose|i: int| 0 <= i < alive.len() && (#[trigger] alive[i]).x == cx && alive[i].y == cy;
    }
}

} // verus!
