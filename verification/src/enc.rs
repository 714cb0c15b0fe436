//! The run-length codec: alive cells as text, and text as alive cells.

use crate::engine::life::strictly_sorted;
use crate::pos::{pos_lt, Pos2};
use crate::text::{chars_of, decimal, parse_i32, parsed_i32, push_decimal, string_of};
use vstd::prelude::*;
use vstd::string::StringExecFns;

verus! {

/// The longest line of encoded cells.
pub const MAX_LINE_LEN: usize = 70;

/// The text of one run: nothing for no item, the tag alone for one, and the
/// count before the tag for any other number.
pub open spec fn run_text(run: int, c: char) -> Seq<char> {
    if run == 0 {
        Seq::empty()
    } else if run == 1 {
        seq![c]
    } else {
        decimal(run).push(c)
    }
}

/// Runs written so far, and the length of the last line of them.
pub struct RunText {
    pub sequence: Seq<char>,
    pub line_len: nat,
    pub max_line_len: nat,
}

impl RunText {
    /// The text after one more run: the run starts a new line where the
    /// last one would grow longer than the longest line.
    pub open spec fn push_run(self, run: int, c: char) -> RunText {
        let text = run_text(run, c);
        if self.line_len + text.len() > self.max_line_len {
            RunText {
                sequence: self.sequence.push('\n') + text,
                line_len: text.len(),
                max_line_len: self.max_line_len,
            }
        } else {
            RunText {
                sequence: self.sequence + text,
                line_len: self.line_len + text.len(),
                max_line_len: self.max_line_len,
            }
        }
    }
}

/// Writes runs into lines of a bounded length.
pub struct RunEncoder {
    sequence: Vec<char>,
    line_len: usize,
    max_line_len: usize,
}

impl View for RunEncoder {
    type V = RunText;

    closed spec fn view(&self) -> RunText {
        RunText {
            sequence: self.sequence@,
            line_len: self.line_len as nat,
            max_line_len: self.max_line_len as nat,
        }
    }
}

impl RunEncoder {
    pub fn new(max_line_len: usize) -> (encoder: Self)
        ensures
            encoder@ == (RunText {
                sequence: Seq::empty(),
                line_len: 0,
                max_line_len: max_line_len as nat,
            }),
    {
        Self { sequence: Vec::new(), line_len: 0, max_line_len }
    }

    /// Writes a run of `run` items with the tag `c`.
    pub fn push_run(&mut self, run: i128, c: char)
        ensures
            final(self)@ == old(self)@.push_run(run as int, c),
    {
        let mut append: Vec<char> = Vec::new();
        if run == 1 {
            append.push(c);
        } else if run != 0 {
            push_decimal(&mut append, run);
            append.push(c);
        }
        assert(append@ =~= run_text(run as int, c));
        if self.line_len > self.max_line_len || append.len() > self.max_line_len - self.line_len {
            self.sequence.push('\n');
            self.line_len = 0;
        }
        self.line_len += append.len();
        let ghost before = self.sequence@;
        let mut i: usize = 0;
        while i < append.len()
            invariant
                0 <= i <= append@.len(),
                self.sequence@ == before + append@.take(i as int),
                self.line_len == final_len(old(self)@, append@),
                self.max_line_len == old(self).max_line_len,
            decreases append@.len() - i,
        {
            self.sequence.push(append[i]);
            assert(append@.take(i + 1) =~= append@.take(i as int).push(append@[i as int]));
            assert(before + append@.take(i as int).push(append@[i as int]) =~= (before
                + append@.take(i as int)).push(append@[i as int]));
            i += 1;
        }
        assert(append@.take(append@.len() as int) =~= append@);
    }

    /// Ends the text and returns it.
    pub fn end(self) -> (text: String)
        ensures
            text@ == self@.sequence.push('!'),
    {
        let mut sequence = self.sequence;
        sequence.push('!');
        string_of(sequence.as_slice())
    }
}

/// The length of the last line after `text` was written into `runs`.
spec fn final_len(runs: RunText, text: Seq<char>) -> nat {
    if runs.line_len + text.len() > runs.max_line_len {
        text.len()
    } else {
        runs.line_len + text.len()
    }
}

/// Decodes runs into alive cells.
pub struct Decoder {
    alive: Vec<Pos2>,
    cursor: Pos2,
    done: bool,
}

impl View for Decoder {
    type V = Decoding;

    closed spec fn view(&self) -> Decoding {
        Decoding { alive: self.alive@, cursor: self.cursor, done: self.done }
    }
}

impl Decoder {
    /// Starts at the origin with no cell.
    pub fn new() -> (decoder: Self)
        ensures
            decoder@ == (Decoding {
                alive: Seq::empty(),
                cursor: Pos2 { x: 0, y: 0 },
                done: false,
            }),
    {
        Self { alive: Vec::new(), cursor: Pos2 { x: 0, y: 0 }, done: false }
    }

    /// Says whether the pattern has ended.
    pub fn is_done(&self) -> (done: bool)
        ensures
            done == self@.done,
    {
        self.done
    }

    /// Takes a run of `run` items with the tag `tag`.
    pub fn push_run(&mut self, run: i32, tag: &[char]) -> (taken: Result<(), DecodeError>)
        ensures
            match taken {
                Ok(_) => after_run(old(self)@, run as int, tag@) == Ok::<Decoding, DecodeError>(
                    final(self)@,
                ),
                Err(e) => after_run(old(self)@, run as int, tag@) == Err::<Decoding, DecodeError>(
                    e,
                ) && final(self)@ == old(self)@,
            },
    {
        if tag.len() != 1 {
            assert(tag@ != seq!['!'] && tag@ != seq!['o'] && tag@ != seq!['b'] && tag@ != seq!['$']);
            return Ok(());
        }
        let state = tag[0];
        assert(tag@ =~= seq![state]);
        assert(seq![state] == seq!['!'] <==> state == '!') by {
            assert(seq![state][0] == state);
            assert(seq!['!'][0] == '!');
        }
        assert(seq![state] == seq!['o'] <==> state == 'o') by {
            assert(seq![state][0] == state);
            assert(seq!['o'][0] == 'o');
        }
        assert(seq![state] == seq!['b'] <==> state == 'b') by {
            assert(seq![state][0] == state);
            assert(seq!['b'][0] == 'b');
        }
        assert(seq![state] == seq!['$'] <==> state == '$') by {
            assert(seq![state][0] == state);
            assert(seq!['$'][0] == '$');
        }
        if state == '!' {
            self.done = true;
        } else if state == 'o' {
            if run > 0 {
                if self.cursor.x > i32::MAX - run {
                    return Err(DecodeError::OutOfRange);
                }
                if self.alive.len() > 0 && !self.alive[self.alive.len() - 1].before(&self.cursor) {
                    return Err(DecodeError::Backward);
                }
                let ghost before = self.alive@;
                let ghost from = self.cursor;
                let mut i: i32 = 0;
                while i < run
                    invariant
                        0 <= i <= run,
                        from.x + run <= i32::MAX,
                        self.cursor.x == from.x + i,
                        self.cursor.y == from.y,
                        self.done == old(self).done,
                        self.alive@ == before + Seq::new(
                            i as nat,
                            |k: int| Pos2 { x: (from.x + k) as i32, y: from.y },
                        ),
                    decreases run - i,
                {
                    self.alive.push(self.cursor);
                    self.cursor.x += 1;
                    i += 1;
                    assert(self.alive@ =~= before + Seq::new(
                        i as nat,
                        |k: int| Pos2 { x: (from.x + k) as i32, y: from.y },
                    ));
                }
            }
        } else if state == 'b' {
            if run < 0 {
                return Err(DecodeError::Backward);
            }
            match self.cursor.x.checked_add(run) {
                Some(x) => {
                    self.cursor.x = x;
                },
                None => {
                    return Err(DecodeError::OutOfRange);
                },
            }
        } else if state == '$' {
            if run < 0 {
                return Err(DecodeError::Backward);
            }
            match self.cursor.y.checked_add(run) {
                Some(y) => {
                    self.cursor.x = 0;
                    self.cursor.y = y;
                },
                None => {
                    return Err(DecodeError::OutOfRange);
                },
            }
        }
        Ok(())
    }

    /// Takes one match of the run pattern.
    pub fn push_match(&mut self, found: &Vec<Option<Vec<char>>>) -> (taken: Result<
        (),
        DecodeError,
    >)
        ensures
            match taken {
                Ok(_) => after_match(old(self)@, found.deep_view()) == Ok::<Decoding, DecodeError>(
                    final(self)@,
                ),
                Err(e) => after_match(old(self)@, found.deep_view()) == Err::<
                    Decoding,
                    DecodeError,
                >(e),
            },
    {
        if self.done || found.len() < 3 {
            return Ok(());
        }
        assert(found.deep_view()[1] == found@[1].deep_view());
        assert(found.deep_view()[2] == found@[2].deep_view());
        match (&found[1], &found[2]) {
            (Some(count), Some(tag)) => {
                assert(count.deep_view() =~= count@);
                assert(tag.deep_view() =~= tag@);
                let run = match parse_i32(count.as_slice()) {
                    Some(run) => run,
                    None => 1,
                };
                self.push_run(run, tag.as_slice())
            },
            _ => Ok(()),
        }
    }

    /// Takes the matches of the run pattern in one line, in their order.
    pub fn push_matches(&mut self, found: &Vec<Vec<Option<Vec<char>>>>) -> (taken: Result<
        (),
        DecodeError,
    >)
        ensures
            match taken {
                Ok(_) => after_matches(old(self)@, found.deep_view()) == Ok::<
                    Decoding,
                    DecodeError,
                >(final(self)@),
                Err(e) => after_matches(old(self)@, found.deep_view()) == Err::<
                    Decoding,
                    DecodeError,
                >(e),
            },
    {
        let ghost all = found.deep_view();
        let mut i: usize = 0;
        while i < found.len()
            invariant
                0 <= i <= found@.len(),
                all == found.deep_view(),
                after_matches(old(self)@, all.take(i as int)) == Ok::<Decoding, DecodeError>(self@),
            decreases found@.len() - i,
        {
            assert(all.take(i + 1).drop_last() =~= all.take(i as int));
            assert(all.take(i + 1).last() == found@[i as int].deep_view());
            match self.push_match(&found[i]) {
                Ok(_) => {},
                Err(e) => {
                    proof {
                        lemma_matches_fail(old(self)@, all, i + 1, e);
                    }
                    return Err(e);
                },
            }
            i += 1;
        }
        assert(all.take(all.len() as int) =~= all);
        Ok(())
    }

    /// Takes the runs of one line of text.
    pub fn push_line(&mut self, line: &[char]) -> (taken: Result<(), DecodeError>)
        ensures
            match taken {
                Ok(_) => after_lines(old(self)@, seq![line@]) == Ok::<Decoding, DecodeError>(
                    final(self)@,
                ),
                Err(e) => after_lines(old(self)@, seq![line@]) == Err::<Decoding, DecodeError>(e),
            },
    {
        assert(seq![line@].drop_last() =~= Seq::<Seq<char>>::empty());
        assert(after_lines(old(self)@, Seq::<Seq<char>>::empty()) == Ok::<Decoding, DecodeError>(
            old(self)@,
        ));
        if self.done {
            return Ok(());
        }
        let code = code_of(line);
        match captures(RUN_PATTERN, code.as_slice()) {
            Ok(found) => self.push_matches(&found),
            Err(_) => Err(DecodeError::Pattern),
        }
    }

    /// Gives the cells that were decoded.
    pub fn finish(self) -> (alive: Vec<Pos2>)
        ensures
            alive@ == self@.alive,
    {
        self.alive
    }
}

/// Once the matches have failed, they fail whatever follows.
proof fn lemma_matches_fail(
    d: Decoding,
    found: Seq<Seq<Option<Seq<char>>>>,
    n: int,
    e: DecodeError,
)
    requires
        0 <= n <= found.len(),
        after_matches(d, found.take(n)) == Err::<Decoding, DecodeError>(e),
    ensures
        after_matches(d, found) == Err::<Decoding, DecodeError>(e),
    decreases found.len() - n,
{
    if n < found.len() {
        assert(found.take(n + 1).drop_last() =~= found.take(n));
        lemma_matches_fail(d, found, n + 1, e);
    } else {
        assert(found.take(n) =~= found);
    }
}

/// The lines after `n` of them are taken one by one.
proof fn lemma_lines_step(d: Decoding, lines: Seq<Seq<char>>, n: int)
    requires
        0 <= n < lines.len(),
    ensures
        after_lines(d, lines.take(n + 1)) == match after_lines(d, lines.take(n)) {
            Ok(d) => after_lines(d, seq![lines[n]]),
            Err(e) => Err(e),
        },
{
    assert(lines.take(n + 1).drop_last() =~= lines.take(n));
    assert(lines.take(n + 1).last() == lines[n]);
    assert(seq![lines[n]].drop_last() =~= Seq::<Seq<char>>::empty());
    assert(seq![lines[n]].last() == lines[n]);
    match after_lines(d, lines.take(n)) {
        Ok(d2) => {
            assert(after_lines(d2, Seq::<Seq<char>>::empty()) == Ok::<Decoding, DecodeError>(d2));
        },
        Err(e) => {},
    }
}

/// Once the lines have failed, they fail whatever follows.
proof fn lemma_lines_fail(d: Decoding, lines: Seq<Seq<char>>, n: int, e: DecodeError)
    requires
        0 <= n <= lines.len(),
        after_lines(d, lines.take(n)) == Err::<Decoding, DecodeError>(e),
    ensures
        after_lines(d, lines) == Err::<Decoding, DecodeError>(e),
    decreases lines.len() - n,
{
    if n < lines.len() {
        assert(lines.take(n + 1).drop_last() =~= lines.take(n));
        lemma_lines_fail(d, lines, n + 1, e);
    } else {
        assert(lines.take(n) =~= lines);
    }
}

/// Where the encoding of cells stands: the runs written, the last cell, and
/// the number of alive cells in the run that is open.
pub struct Runs {
    pub text: RunText,
    pub last_x: int,
    pub last_y: int,
    pub alive_run: int,
}

/// The encoding after the cell `pos`, in a pattern whose leftmost column is
/// `left`: a cell right of the last one grows the open run; any other cell
/// closes it, and the lines and the dead cells up to it are written.
pub open spec fn runs_step(runs: Runs, pos: Pos2, left: int) -> Runs {
    if runs.last_y == pos.y && runs.last_x + 1 == pos.x {
        Runs { text: runs.text, last_x: pos.x as int, last_y: pos.y as int, alive_run: runs.alive_run + 1 }
    } else {
        let lines_run = pos.y - runs.last_y;
        let dead_run = if lines_run == 0 {
            pos.x - runs.last_x - 1
        } else {
            pos.x - left
        };
        Runs {
            text: runs.text.push_run(runs.alive_run, 'o').push_run(lines_run, '$').push_run(
                dead_run,
                'b',
            ),
            last_x: pos.x as int,
            last_y: pos.y as int,
            alive_run: 1,
        }
    }
}

/// The encoding after all of `cells`, in a pattern whose top left corner is
/// `(left, top)`.
pub open spec fn runs_of(cells: Seq<Pos2>, left: int, top: int) -> Runs
    decreases cells.len(),
{
    if cells.len() == 0 {
        Runs {
            text: RunText { sequence: Seq::empty(), line_len: 0, max_line_len: MAX_LINE_LEN as nat },
            last_x: left - 1,
            last_y: top,
            alive_run: 0,
        }
    } else {
        runs_step(runs_of(cells.drop_last(), left, top), cells.last(), left)
    }
}

/// The least column of `cells`; 0 where there is none.
pub open spec fn leftmost(cells: Seq<Pos2>) -> int
    decreases cells.len(),
{
    if cells.len() == 0 {
        0
    } else if cells.len() == 1 {
        cells[0].x as int
    } else {
        let rest = leftmost(cells.drop_last());
        if cells.last().x < rest {
            cells.last().x as int
        } else {
            rest
        }
    }
}

/// The first row of `cells`; 0 where there is none.
pub open spec fn topmost(cells: Seq<Pos2>) -> int {
    if cells.len() == 0 {
        0
    } else {
        cells[0].y as int
    }
}

/// The cells as runs, relative to their top left corner, ended by `!`.
pub open spec fn encoded_cells(cells: Seq<Pos2>) -> Seq<char> {
    let runs = runs_of(cells, leftmost(cells), topmost(cells));
    runs.text.push_run(runs.alive_run, 'o').sequence.push('!')
}

/// The cells moved by `dx` columns and `dy` rows.
pub open spec fn moved_by(cells: Seq<Pos2>, dx: int, dy: int) -> Seq<Pos2> {
    Seq::new(
        cells.len(),
        |i: int| Pos2 { x: (cells[i].x + dx) as i32, y: (cells[i].y + dy) as i32 },
    )
}

/// The cells stay within the coordinates when they are moved by `dx` columns
/// and `dy` rows.
pub open spec fn can_move_by(cells: Seq<Pos2>, dx: int, dy: int) -> bool {
    forall|i: int|
        0 <= i < cells.len() ==> i32::MIN <= (#[trigger] cells[i]).x + dx <= i32::MAX && i32::MIN
            <= cells[i].y + dy <= i32::MAX
}

/// The runs of moved cells, from a corner that moved with them, are the runs
/// of the cells.
proof fn lemma_runs_moved(cells: Seq<Pos2>, left: int, top: int, dx: int, dy: int)
    requires
        can_move_by(cells, dx, dy),
    ensures
        ({
            let runs = runs_of(cells, left, top);
            runs_of(moved_by(cells, dx, dy), left + dx, top + dy) == (Runs {
                text: runs.text,
                last_x: runs.last_x + dx,
                last_y: runs.last_y + dy,
                alive_run: runs.alive_run,
            })
        }),
    decreases cells.len(),
{
    if cells.len() > 0 {
        let rest = cells.drop_last();
        assert(moved_by(cells, dx, dy).drop_last() =~= moved_by(rest, dx, dy));
        assert(moved_by(cells, dx, dy).last() == (Pos2 {
            x: (cells.last().x + dx) as i32,
            y: (cells.last().y + dy) as i32,
        }));
        assert(can_move_by(rest, dx, dy)) by {
            assert forall|i: int| 0 <= i < rest.len() implies i32::MIN <= (#[trigger] rest[i]).x
                + dx <= i32::MAX && i32::MIN <= rest[i].y + dy <= i32::MAX by {
                assert(rest[i] == cells[i]);
            }
        }
        lemma_runs_moved(rest, left, top, dx, dy);
    }
}

/// The leftmost column moves with the cells.
proof fn lemma_leftmost_moved(cells: Seq<Pos2>, dx: int, dy: int)
    requires
        can_move_by(cells, dx, dy),
        cells.len() > 0,
    ensures
        leftmost(moved_by(cells, dx, dy)) == leftmost(cells) + dx,
    decreases cells.len(),
{
    if cells.len() > 1 {
        let rest = cells.drop_last();
        assert(moved_by(cells, dx, dy).drop_last() =~= moved_by(rest, dx, dy));
        assert(can_move_by(rest, dx, dy)) by {
            assert forall|i: int| 0 <= i < rest.len() implies i32::MIN <= (#[trigger] rest[i]).x
                + dx <= i32::MAX && i32::MIN <= rest[i].y + dy <= i32::MAX by {
                assert(rest[i] == cells[i]);
            }
        }
        lemma_leftmost_moved(rest, dx, dy);
    }
}

/// The text of cells says where they lie from their top left corner, not
/// where on the plane: cells moved as a whole have the same text.
pub proof fn lemma_encoded_moved(cells: Seq<Pos2>, dx: int, dy: int)
    requires
        can_move_by(cells, dx, dy),
    ensures
        encoded_cells(moved_by(cells, dx, dy)) == encoded_cells(cells),
{
    if cells.len() == 0 {
        assert(moved_by(cells, dx, dy) =~= cells);
    } else {
        lemma_leftmost_moved(cells, dx, dy);
        lemma_runs_moved(cells, leftmost(cells), topmost(cells), dx, dy);
    }
}

/// The header: a line with the name, where there is one, and the line of the
/// size and the rule; nothing where no header is wanted.
pub open spec fn encoded_header(name: Option<Seq<char>>, header: bool) -> Seq<char> {
    if !header {
        Seq::empty()
    } else {
        (match name {
            Some(name) => "#N "@ + name + "\n"@,
            None => Seq::empty(),
        }) + "x = 0, y = 0, rule = 23/3"@
    }
}

/// Encodes positions as text, and decodes text into positions.
pub trait PositionEncoder {
    fn encode(self, positions: &[Pos2]) -> String;

    fn decode(self, value: &str) -> Result<Vec<Pos2>, DecodeError>;
}

/// Why a text could not be decoded.
#[derive(Debug, Clone, Copy, PartialEq, Eq, Structural)]
pub enum DecodeError {
    /// The pattern of a run was refused.
    Pattern,
    /// A run leads out of the coordinates.
    OutOfRange,
    /// A run goes back: its count is negative, or it puts a cell at or before
    /// an earlier one.
    Backward,
}

/// The pattern of one run: a count, which may be missing, and its tag.
pub const RUN_PATTERN: &'static str = r"(\d*)([bo$!])";

/// `regex::Error`: why a pattern could not be compiled.
#[verifier::external_type_specification]
#[verifier::external_body]
pub struct ExRegexError(regex::Error);

/// The matches of the regular expression `pattern` in `text`, one after the
/// other and without overlap: for each match the text of each of its groups,
/// the whole match first, `None` for a group that took no part. `None` where
/// `pattern` is no regular expression.
pub uninterp spec fn regex_captures(pattern: Seq<char>, text: Seq<char>) -> Option<
    Seq<Seq<Option<Seq<char>>>>,
>;

/// `regex::Regex::new` and `Regex::captures_iter`: compiles `pattern` and
/// finds its matches in `text`. What comes back is a function of the pattern
/// and the text alone; the error is that of the compilation.
#[verifier::external_body]
fn captures(pattern: &str, text: &[char]) -> (found: Result<
    Vec<Vec<Option<Vec<char>>>>,
    regex::Error,
>)
    ensures
        match found {
            Ok(found) => regex_captures(pattern@, text@) == Some(found.deep_view()),
            Err(_) => regex_captures(pattern@, text@) is None,
        },
{
    let text: String = text.iter().collect();
    let re = regex::Regex::new(pattern)?;
    Ok(
        re.captures_iter(&text).map(
            |found| found.iter().map(|group| group.map(|m| m.as_str().chars().collect())).collect(),
        ).collect(),
    )
}

/// The lines of `text`: the pieces between its line feeds.
pub open spec fn split_lines(text: Seq<char>) -> Seq<Seq<char>>
    decreases text.len(),
{
    if text.len() == 0 {
        seq![Seq::empty()]
    } else {
        let lines = split_lines(text.drop_last());
        if text.last() == '\n' {
            lines.push(Seq::empty())
        } else {
            lines.update(lines.len() - 1, lines.last().push(text.last()))
        }
    }
}

/// The line up to its first `#`: what comes after is a comment.
pub open spec fn strip_comment(line: Seq<char>) -> Seq<char>
    decreases line.len(),
{
    if line.len() == 0 || line[0] == '#' {
        Seq::empty()
    } else {
        seq![line[0]] + strip_comment(line.drop_first())
    }
}

/// Where the decoding of a text stands.
pub struct Decoding {
    pub alive: Seq<Pos2>,
    pub cursor: Pos2,
    pub done: bool,
}

/// The count of a run: the number that `text` is, and 1 where it is none.
pub open spec fn run_count(text: Seq<char>) -> int {
    match parsed_i32(text) {
        Some(run) => run,
        None => 1,
    }
}

/// The decoding after a run of `run` items with the tag `tag`: `o` adds
/// alive cells to the right, `b` skips dead ones, `$` goes down to the first
/// column, `!` ends the pattern. A run fails where it leads out of the
/// coordinates, and where it goes back: `b` or `$` with a negative count, or
/// `o` at a place that does not come after the last cell.
pub open spec fn after_run(d: Decoding, run: int, tag: Seq<char>) -> Result<Decoding, DecodeError> {
    if tag == seq!['!'] {
        Ok(Decoding { done: true, ..d })
    } else if tag == seq!['o'] {
        if run <= 0 {
            Ok(d)
        } else if d.cursor.x + run > i32::MAX {
            Err(DecodeError::OutOfRange)
        } else if d.alive.len() > 0 && !pos_lt(d.alive.last(), d.cursor) {
            Err(DecodeError::Backward)
        } else {
            Ok(
                Decoding {
                    alive: d.alive + Seq::new(
                        run as nat,
                        |i: int| Pos2 { x: (d.cursor.x + i) as i32, y: d.cursor.y },
                    ),
                    cursor: Pos2 { x: (d.cursor.x + run) as i32, y: d.cursor.y },
                    done: d.done,
                },
            )
        }
    } else if tag == seq!['b'] {
        if run < 0 {
            Err(DecodeError::Backward)
        } else if d.cursor.x + run > i32::MAX {
            Err(DecodeError::OutOfRange)
        } else {
            Ok(Decoding { cursor: Pos2 { x: (d.cursor.x + run) as i32, y: d.cursor.y }, ..d })
        }
    } else if tag == seq!['$'] {
        if run < 0 {
            Err(DecodeError::Backward)
        } else if d.cursor.y + run > i32::MAX {
            Err(DecodeError::OutOfRange)
        } else {
            Ok(Decoding { cursor: Pos2 { x: 0, y: (d.cursor.y + run) as i32 }, ..d })
        }
    } else {
        Ok(d)
    }
}

/// The decoding after one match of the run pattern: its first group is the
/// count and its second the tag. Nothing changes once the pattern has ended,
/// nor for a match without these groups.
pub open spec fn after_match(d: Decoding, found: Seq<Option<Seq<char>>>) -> Result<
    Decoding,
    DecodeError,
> {
    if d.done || found.len() < 3 || found[1] is None || found[2] is None {
        Ok(d)
    } else {
        after_run(d, run_count(found[1]->0), found[2]->0)
    }
}

/// The decoding after the matches `found`, in their order.
pub open spec fn after_matches(d: Decoding, found: Seq<Seq<Option<Seq<char>>>>) -> Result<
    Decoding,
    DecodeError,
>
    decreases found.len(),
{
    if found.len() == 0 {
        Ok(d)
    } else {
        match after_matches(d, found.drop_last()) {
            Ok(d) => after_match(d, found.last()),
            Err(e) => Err(e),
        }
    }
}

/// The decoding after the lines `lines`, in their order: the runs of each
/// line are the matches of the run pattern in the line without its comment.
pub open spec fn after_lines(d: Decoding, lines: Seq<Seq<char>>) -> Result<Decoding, DecodeError>
    decreases lines.len(),
{
    if lines.len() == 0 {
        Ok(d)
    } else {
        match after_lines(d, lines.drop_last()) {
            Ok(d) => if d.done {
                Ok(d)
            } else {
                match regex_captures(RUN_PATTERN@, strip_comment(lines.last())) {
                    Some(found) => after_matches(d, found),
                    None => Err(DecodeError::Pattern),
                }
            },
            Err(e) => Err(e),
        }
    }
}

/// The cells so far are in order and hold no cell twice, and neither they nor
/// the cursor lie left of or above the origin.
pub open spec fn orderly(d: Decoding) -> bool {
    &&& strictly_sorted(d.alive)
    &&& d.cursor.x >= 0
    &&& d.cursor.y >= 0
    &&& forall|i: int| 0 <= i < d.alive.len() ==> (#[trigger] d.alive[i]).x >= 0 && d.alive[i].y >= 0
}

/// A run keeps the decoding orderly.
pub proof fn lemma_run_orderly(d: Decoding, run: int, tag: Seq<char>)
    requires
        orderly(d),
    ensures
        after_run(d, run, tag) matches Ok(after) ==> orderly(after),
{
    assert(seq!['o'] != seq!['!']) by {
        assert(seq!['o'][0] == 'o');
        assert(seq!['!'][0] == '!');
    }
    if let Ok(after) = after_run(d, run, tag) {
        if tag == seq!['o'] && run > 0 {
            let row = Seq::new(
                run as nat,
                |i: int| Pos2 { x: (d.cursor.x + i) as i32, y: d.cursor.y },
            );
            let n = d.alive.len() as int;
            assert(after.alive =~= d.alive + row);
            assert forall|i: int, j: int| 0 <= i < j < after.alive.len() implies pos_lt(
                #[trigger] after.alive[i],
                #[trigger] after.alive[j],
            ) by {
                if j < n {
                    assert(after.alive[i] == d.alive[i] && after.alive[j] == d.alive[j]);
                } else {
                    assert(after.alive[j] == row[j - n]);
                    if i < n {
                        assert(after.alive[i] == d.alive[i]);
                        if i < n - 1 {
                            assert(pos_lt(d.alive[i], d.alive[n - 1]));
                        }
                    } else {
                        assert(after.alive[i] == row[i - n]);
                    }
                }
            }
            assert forall|i: int| 0 <= i < after.alive.len() implies (#[trigger] after.alive[i]).x
                >= 0 && after.alive[i].y >= 0 by {
                if i < n {
                    assert(after.alive[i] == d.alive[i]);
                } else {
                    assert(after.alive[i] == row[i - n]);
                }
            }
        }
    }
}

/// The matches of a line keep the decoding orderly.
pub proof fn lemma_matches_orderly(d: Decoding, found: Seq<Seq<Option<Seq<char>>>>)
    requires
        orderly(d),
    ensures
        after_matches(d, found) matches Ok(after) ==> orderly(after),
    decreases found.len(),
{
    if found.len() > 0 {
        lemma_matches_orderly(d, found.drop_last());
        if let Ok(before) = after_matches(d, found.drop_last()) {
            let last = found.last();
            if !(before.done || last.len() < 3 || last[1] is None || last[2] is None) {
                lemma_run_orderly(before, run_count(last[1]->0), last[2]->0);
            }
        }
    }
}

/// Lines of text keep the decoding orderly: what is decoded is sorted, holds
/// no cell twice, and lies right of and below the origin.
pub proof fn lemma_lines_orderly(d: Decoding, lines: Seq<Seq<char>>)
    requires
        orderly(d),
    ensures
        after_lines(d, lines) matches Ok(after) ==> orderly(after),
    decreases lines.len(),
{
    if lines.len() > 0 {
        lemma_lines_orderly(d, lines.drop_last());
        if let Ok(before) = after_lines(d, lines.drop_last()) {
            if !before.done {
                if let Some(found) = regex_captures(RUN_PATTERN@, strip_comment(lines.last())) {
                    lemma_matches_orderly(before, found);
                }
            }
        }
    }
}

/// The cells that `text` describes, from the origin on.
pub open spec fn decoded(text: Seq<char>) -> Result<Seq<Pos2>, DecodeError> {
    let start = Decoding { alive: Seq::empty(), cursor: Pos2 { x: 0, y: 0 }, done: false };
    match after_lines(start, split_lines(text)) {
        Ok(d) => Ok(d.alive),
        Err(e) => Err(e),
    }
}

/// Cuts `text` into its lines.
pub fn lines_of(text: &[char]) -> (lines: Vec<Vec<char>>)
    ensures
        lines.deep_view() == split_lines(text@),
{
    let mut lines: Vec<Vec<char>> = Vec::new();
    let mut line: Vec<char> = Vec::new();
    let mut i: usize = 0;
    while i < text.len()
        invariant
            0 <= i <= text@.len(),
            lines.deep_view().push(line@) == split_lines(text@.take(i as int)),
        decreases text@.len() - i,
    {
        assert(text@.take(i + 1).drop_last() =~= text@.take(i as int));
        let ghost so_far = lines.deep_view().push(line@);
        if text[i] == '\n' {
            lines.push(line);
            line = Vec::new();
            assert(lines.deep_view() =~~= so_far);
        } else {
            line.push(text[i]);
            assert(lines.deep_view().push(line@) =~~= so_far.update(
                so_far.len() - 1,
                so_far.last().push(text@[i as int]),
            ));
        }
        i += 1;
    }
    assert(text@.take(text@.len() as int) =~= text@);
    let ghost so_far = lines.deep_view().push(line@);
    lines.push(line);
    assert(lines.deep_view() =~~= so_far);
    lines
}

/// The part of `line` before its comment.
pub fn code_of(line: &[char]) -> (code: Vec<char>)
    ensures
        code@ == strip_comment(line@),
{
    let mut code: Vec<char> = Vec::new();
    let mut i: usize = 0;
    assert(line@.skip(0) =~= line@);
    while i < line.len() && line[i] != '#'
        invariant
            0 <= i <= line@.len(),
            strip_comment(line@) == code@ + strip_comment(line@.skip(i as int)),
        decreases line@.len() - i,
    {
        assert(line@.skip(i as int).drop_first() =~= line@.skip(i + 1));
        assert(code@.push(line@[i as int]) + strip_comment(line@.skip(i + 1)) =~= code@ + (
        seq![line@[i as int]] + strip_comment(line@.skip(i + 1))));
        code.push(line[i]);
        i += 1;
    }
    assert(strip_comment(line@.skip(i as int)) =~= Seq::<char>::empty());
    code
}


/// The run-length encoding of patterns.
pub struct RunLengthEncoded {
    name: Option<String>,
    header: bool,
}

impl RunLengthEncoded {
    /// The name that the header gives the pattern.
    pub closed spec fn name(&self) -> Option<Seq<char>> {
        match self.name {
            Some(name) => Some(name@),
            None => None,
        }
    }

    /// Says whether a header is written.
    pub closed spec fn header(&self) -> bool {
        self.header
    }

    pub fn set_name(self, name: &str) -> (named: Self)
        ensures
            named.name() == Some(name@),
            named.header() == self.header(),
    {
        Self { name: Some(name.to_owned()), header: self.header }
    }

    pub fn encode_header(&self) -> (header: String)
        ensures
            header@ == encoded_header(self.name(), self.header()),
    {
        let mut header = String::new();
        if !self.header {
            return header;
        }
        if let Some(name) = &self.name {
            header.append("#N ");
            header.append(name.as_str());
            header.append("\n");
        }
        header.append("x = 0, y = 0, rule = 23/3");
        header
    }

    pub fn encode_cells(&self, alive_cells: &[Pos2]) -> (cells: String)
        ensures
            cells@ == encoded_cells(alive_cells@),
    {
        // top-left
        let mut left: i32 = 0;
        let mut i: usize = 0;
        while i < alive_cells.len()
            invariant
                0 <= i <= alive_cells@.len(),
                left == leftmost(alive_cells@.take(i as int)),
            decreases alive_cells@.len() - i,
        {
            assert(alive_cells@.take(i + 1).drop_last() =~= alive_cells@.take(i as int));
            if i == 0 || alive_cells[i].x < left {
                left = alive_cells[i].x;
            }
            i += 1;
        }
        assert(alive_cells@.take(alive_cells@.len() as int) =~= alive_cells@);
        // the first cell has the lowest row where the cells are sorted
        let top: i32 = if alive_cells.len() > 0 {
            alive_cells[0].y
        } else {
            0
        };

        let mut last_x: i128 = left as i128 - 1;
        let mut last_y: i128 = top as i128;
        let mut alive_run: i128 = 0;
        let mut seq = RunEncoder::new(MAX_LINE_LEN);
        let mut i: usize = 0;
        while i < alive_cells.len()
            invariant
                0 <= i <= alive_cells@.len(),
                0 <= alive_run <= i,
                i32::MIN - 1 <= last_x <= i32::MAX,
                i32::MIN <= last_y <= i32::MAX,
                (Runs {
                    text: seq@,
                    last_x: last_x as int,
                    last_y: last_y as int,
                    alive_run: alive_run as int,
                }) == runs_of(alive_cells@.take(i as int), left as int, top as int),
            decreases alive_cells@.len() - i,
        {
            let pos = alive_cells[i];
            assert(alive_cells@.take(i + 1).drop_last() =~= alive_cells@.take(i as int));
            // one ahead of the last cell only grows the run
            if last_y == pos.y as i128 && last_x + 1 == pos.x as i128 {
                alive_run += 1;
            } else {
                let lines_run = pos.y as i128 - last_y;
                let dead_run = if lines_run == 0 {
                    pos.x as i128 - last_x - 1
                } else {
                    pos.x as i128 - left as i128
                };
                // the order matters
                seq.push_run(alive_run, 'o');
                seq.push_run(lines_run, '$');
                seq.push_run(dead_run, 'b');
                alive_run = 1;
            }
            last_x = pos.x as i128;
            last_y = pos.y as i128;
            i += 1;
        }
        assert(alive_cells@.take(alive_cells@.len() as int) =~= alive_cells@);
        seq.push_run(alive_run, 'o');
        seq.end()
    }
}

impl Default for RunLengthEncoded {
    fn default() -> (codec: Self)
        ensures
            codec.name() is None,
            codec.header(),
    {
        Self { name: None, header: true }
    }
}

impl PositionEncoder for RunLengthEncoded {
    fn encode(self, cells: &[Pos2]) -> (text: String)
        ensures
            text@ == encoded_header(self.name(), self.header()) + "\n"@ + encoded_cells(cells@)
                + "\n"@,
    {
        let mut text = self.encode_header();
        text.append("\n");
        text.append(self.encode_cells(cells).as_str());
        text.append("\n");
        text
    }

    fn decode(self, value: &str) -> (alive: Result<Vec<Pos2>, DecodeError>)
        ensures
            match alive {
                Ok(alive) => decoded(value@) == Ok::<Seq<Pos2>, DecodeError>(alive@),
                Err(e) => decoded(value@) == Err::<Seq<Pos2>, DecodeError>(e),
            },
            alive matches Ok(alive) ==> strictly_sorted(alive@) && forall|i: int|
                0 <= i < alive@.len() ==> (#[trigger] alive@[i]).x >= 0 && alive@[i].y >= 0,
    {
        let text = chars_of(value);
        let lines = lines_of(text.as_slice());
        let ghost all = split_lines(value@);
        let mut decoder = Decoder::new();
        let ghost start = decoder@;
        let mut i: usize = 0;
        while i < lines.len()
            invariant
                0 <= i <= lines@.len(),
                all == lines.deep_view(),
                all == split_lines(value@),
                start == (Decoding {
                    alive: Seq::empty(),
                    cursor: Pos2 { x: 0, y: 0 },
                    done: false,
                }),
                after_lines(start, all.take(i as int)) == Ok::<Decoding, DecodeError>(decoder@),
            decreases lines@.len() - i,
        {
            proof {
                lemma_lines_step(start, all, i as int);
                assert(all[i as int] == lines@[i as int].deep_view());
                assert(lines@[i as int].deep_view() =~~= lines@[i as int]@);
            }
            match decoder.push_line(lines[i].as_slice()) {
                Ok(_) => {},
                Err(e) => {
                    proof {
                        lemma_lines_fail(start, all, i + 1, e);
                    }
                    return Err(e);
                },
            }
            i += 1;
        }
        assert(all.take(all.len() as int) =~= all);
        proof {
            lemma_lines_orderly(start, all);
        }
        Ok(decoder.finish())
    }
}

} // verus!
