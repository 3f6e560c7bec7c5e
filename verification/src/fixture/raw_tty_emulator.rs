//! A model of a character-cell terminal: a grid of characters that grows on
//! demand, a cursor, and the interpretation of the bytes written to it.
//!
//! The model reads the escape sequences that the line editor writes:
//!
//! * `ESC [ Pn A`, `B`, `C`, `D` move the cursor up, down, right and left by
//!   `Pn` cells, by one where `Pn` is left out; a move up or left stops at
//!   the first row or column;
//! * `ESC [ Pr ; Pc H` puts the cursor in row `Pr` and column `Pc`, both
//!   counted from one, and `ESC [ H` in the top left corner;
//! * `ESC [ K` (clear to the end of the row) and `ESC [ ? Pn h`,
//!   `ESC [ ? Pn l` (cursor shown, hidden) are read and change nothing.
//!
//! Everything else that starts with `ESC` is an error, and so is a sequence
//! that the written bytes cut short, a number that is missing between or
//! after semicolons, and a number or a cursor position beyond what a machine
//! word holds. The bytes before the offending sequence stay applied.

use vstd::prelude::*;

use crate::chars::string_from_chars;
use crate::cmd_input::cmd_input::{DetectCursorPosAlias, IoWriteAlias};
use crate::error::YeeshError;

verus! {

pub const ESCAPE: u8 = 0x1B;

pub const LINE_FEED: u8 = 0x0A;

pub const CARRIAGE_RETURN: u8 = 0x0D;

pub const BRACKET: u8 = 0x5B;

pub const QUESTION_MARK: u8 = 0x3F;

pub const SEMICOLON: u8 = 0x3B;

pub const DIGIT_ZERO: u8 = 0x30;

pub const DIGIT_NINE: u8 = 0x39;

/// What an escape sequence asks for, told from its last byte.
#[derive(Clone, Copy, Debug, PartialEq, Eq, Structural)]
pub enum EscapeType {
    Home,
    Up,
    Down,
    Left,
    Right,
    /// Clear the row from the cursor to its end.
    Erase,
    /// Set or reset a mode of the terminal.
    Mode,
    Unknown,
}

/// The meaning of the byte that ends an escape sequence.
pub open spec fn escape_type(last: u8) -> EscapeType {
    if last == 0x48 {
        EscapeType::Home
    } else if last == 0x41 {
        EscapeType::Up
    } else if last == 0x42 {
        EscapeType::Down
    } else if last == 0x43 {
        EscapeType::Right
    } else if last == 0x44 {
        EscapeType::Left
    } else if last == 0x4B {
        EscapeType::Erase
    } else if last == 0x68 || last == 0x6C {
        EscapeType::Mode
    } else {
        EscapeType::Unknown
    }
}

impl EscapeType {
    /// The meaning of the byte that ends an escape sequence: `H`, `A`, `B`,
    /// `C`, `D`, `K`, and `h` or `l`.
    pub fn from(input: u8) -> (kind: Self)
        ensures
            kind == escape_type(input),
    {
        if input == 0x48 {
            EscapeType::Home
        } else if input == 0x41 {
            EscapeType::Up
        } else if input == 0x42 {
            EscapeType::Down
        } else if input == 0x43 {
            EscapeType::Right
        } else if input == 0x44 {
            EscapeType::Left
        } else if input == 0x4B {
            EscapeType::Erase
        } else if input == 0x68 || input == 0x6C {
            EscapeType::Mode
        } else {
            EscapeType::Unknown
        }
    }
}

/// Whether `b` is a decimal digit.
pub open spec fn is_digit(b: u8) -> bool {
    DIGIT_ZERO <= b <= DIGIT_NINE
}

/// Whether `b` may stand among the numbers of an escape sequence.
pub open spec fn is_param(b: u8) -> bool {
    is_digit(b) || b == SEMICOLON
}

/// How far the reading of a list of numbers has come.
pub struct Numbers {
    /// The numbers that a semicolon has ended.
    pub done: Seq<usize>,
    /// The value of the digits read since.
    pub value: int,
    /// Whether a digit was read since.
    pub pending: bool,
    /// Whether all is well so far: no number was missing, none was too large.
    pub ok: bool,
}

impl Numbers {
    pub open spec fn start() -> Numbers {
        Numbers { done: Seq::empty(), value: 0, pending: false, ok: true }
    }

    /// The reading after one more byte, a digit or a semicolon.
    pub open spec fn step(self, b: u8) -> Numbers {
        if b == SEMICOLON {
            Numbers {
                done: self.done.push(self.value as usize),
                value: 0,
                pending: false,
                ok: self.ok && self.pending,
            }
        } else {
            let value = self.value * 10 + (b - DIGIT_ZERO);
            Numbers {
                value,
                pending: true,
                ok: self.ok && value <= usize::MAX,
                ..self
            }
        }
    }
}

/// The reading of the first `n` bytes of `params`.
pub open spec fn read_numbers(params: Seq<u8>, n: int) -> Numbers
    decreases n,
{
    if n <= 0 {
        Numbers::start()
    } else {
        read_numbers(params, n - 1).step(params[n - 1])
    }
}

/// The numbers that `params` lists in decimal, separated by semicolons. No
/// bytes list no numbers. A number that is missing or too large for a
/// machine word spoils the list.
pub open spec fn numbers(params: Seq<u8>) -> Option<Seq<usize>> {
    if params.len() == 0 {
        Some(Seq::empty())
    } else {
        let read = read_numbers(params, params.len() as int);
        if read.ok && read.pending {
            Some(read.done.push(read.value as usize))
        } else {
            None
        }
    }
}

/// A reading that has gone wrong stays wrong.
proof fn lemma_spoiled(params: Seq<u8>, n: int, m: int)
    requires
        0 <= n <= m,
        !read_numbers(params, n).ok,
    ensures
        !read_numbers(params, m).ok,
    decreases m - n,
{
    if n < m {
        lemma_spoiled(params, n, m - 1);
    }
}

/// Reads the numbers listed in `buf[from..to]`.
fn parse_numbers(buf: &[u8], from: usize, to: usize) -> (nums: Option<Vec<usize>>)
    requires
        from <= to <= buf.len(),
        forall|i: int| from <= i < to ==> is_param(#[trigger] buf@[i]),
    ensures
        match nums {
            Some(nums) => numbers(buf@.subrange(from as int, to as int)) == Some(nums@),
            None => numbers(buf@.subrange(from as int, to as int)) is None,
        },
{
    let ghost params = buf@.subrange(from as int, to as int);
    let mut done: Vec<usize> = Vec::new();
    if from == to {
        return Some(done);
    }
    let mut value: usize = 0;
    let mut pending = false;
    let mut at: usize = from;
    while at < to
        invariant
            from <= at <= to <= buf.len(),
            params == buf@.subrange(from as int, to as int),
            forall|i: int| from <= i < to ==> is_param(#[trigger] buf@[i]),
            read_numbers(params, at - from) == (Numbers {
                done: done@,
                value: value as int,
                pending,
                ok: true,
            }),
        decreases to - at,
    {
        let b = buf[at];
        assert(params[at - from] == b);
        assert(read_numbers(params, at - from + 1) == read_numbers(params, at - from).step(b));
        if b == SEMICOLON {
            if !pending {
                proof {
                    lemma_spoiled(params, at - from + 1, to - from);
                }
                return None;
            }
            done.push(value);
            value = 0;
            pending = false;
        } else {
            let digit: usize = (b - DIGIT_ZERO) as usize;
            if value > (usize::MAX - digit) / 10 {
                proof {
                    lemma_spoiled(params, at - from + 1, to - from);
                }
                return None;
            }
            value = value * 10 + digit;
            pending = true;
        }
        at += 1;
    }
    if pending {
        done.push(value);
        Some(done)
    } else {
        None
    }
}


/// The terminal as plain values: the rows of characters, and the cursor's
/// column and row, counted from zero.
pub struct Screen {
    pub text: Seq<Seq<char>>,
    pub column: int,
    pub row: int,
}

impl Screen {
    /// The cursor stands in one of the rows, and a machine word holds its
    /// column and the column behind it.
    pub open spec fn wf(self) -> bool {
        &&& 0 <= self.row < self.text.len()
        &&& 0 <= self.column < usize::MAX
    }

    /// One empty row, the cursor at its start.
    pub open spec fn blank() -> Screen {
        Screen { text: seq![Seq::empty()], column: 0, row: 0 }
    }

    /// The screen with empty rows added up to the cursor's row, and that row
    /// filled up with spaces up to the cursor's column, so that a character
    /// stands under the cursor.
    pub open spec fn padded(self) -> Screen {
        let rows = if self.row < self.text.len() {
            self.text
        } else {
            self.text + Seq::new(
                (self.row + 1 - self.text.len()) as nat,
                |i: int| Seq::<char>::empty(),
            )
        };
        let line = rows[self.row];
        let filled = if self.column < line.len() {
            line
        } else {
            line + Seq::new((self.column + 1 - line.len()) as nat, |i: int| ' ')
        };
        Screen { text: rows.update(self.row, filled), ..self }
    }

    /// The screen after a line feed: the cursor goes down one row, which is
    /// added if the cursor stood in the last one.
    pub open spec fn line_feed(self) -> Screen {
        Screen {
            text: if self.row == self.text.len() - 1 {
                self.text.push(Seq::empty())
            } else {
                self.text
            },
            row: self.row + 1,
            ..self
        }
    }

    /// The screen after a carriage return: the cursor goes to the first
    /// column.
    pub open spec fn carriage_return(self) -> Screen {
        Screen { column: 0, ..self }
    }

    /// The screen after an ordinary character: it replaces the character
    /// under the cursor, or is added to the row where the cursor stands
    /// behind the row's end, and the cursor moves right.
    pub open spec fn put(self, c: char) -> Screen {
        let line = self.text[self.row];
        Screen {
            text: self.text.update(
                self.row,
                if self.column < line.len() {
                    line.update(self.column, c)
                } else {
                    line.push(c)
                },
            ),
            column: self.column + 1,
            ..self
        }
    }

    /// Where an escape sequence of the given kind takes the cursor, if it
    /// moves it: `x` columns left or right, `y` rows up or down, or to column
    /// `x` and row `y` counted from one. A move up or left stops at zero.
    pub open spec fn target(self, kind: EscapeType, x: int, y: int) -> (int, int) {
        match kind {
            EscapeType::Left => (if x <= self.column { self.column - x } else { 0 }, self.row),
            EscapeType::Right => (self.column + x, self.row),
            EscapeType::Up => (self.column, if y <= self.row { self.row - y } else { 0 }),
            EscapeType::Down => (self.column, self.row + y),
            EscapeType::Home => (if 1 <= x { x - 1 } else { 0 }, if 1 <= y { y - 1 } else { 0 }),
            _ => (self.column, self.row),
        }
    }

    /// The screen after an escape sequence, or nothing if the sequence is
    /// not one that the model reads.
    pub open spec fn escape_effect(self, escape: Escape) -> Option<Screen> {
        let kind = escape_type(escape.last);
        match numbers(escape.params) {
            None => None,
            Some(nums) => {
                let (x, y) = arguments(nums);
                let (column, row) = self.target(kind, x, y);
                if escape.private {
                    if kind == EscapeType::Mode {
                        Some(self)
                    } else {
                        None
                    }
                } else if kind == EscapeType::Erase {
                    Some(self)
                } else if kind == EscapeType::Mode || kind == EscapeType::Unknown {
                    None
                } else if column < usize::MAX && row < usize::MAX {
                    Some(Screen { column, row, ..self }.padded())
                } else {
                    None
                }
            },
        }
    }
}

/// The two arguments of an escape sequence, `(x, y)`: one each where none is
/// given, the one number twice where one is given, and else the second
/// number and the first.
pub open spec fn arguments(nums: Seq<usize>) -> (int, int) {
    if nums.len() == 0 {
        (1, 1)
    } else if nums.len() == 1 {
        (nums[0] as int, nums[0] as int)
    } else {
        (nums[1] as int, nums[0] as int)
    }
}

/// An escape sequence as it was read.
pub struct Escape {
    /// Whether a question mark follows the bracket.
    pub private: bool,
    /// The digits and semicolons.
    pub params: Seq<u8>,
    /// The byte that ends the sequence.
    pub last: u8,
    /// How many bytes the sequence has after `ESC`.
    pub len: nat,
}

/// How many digits and semicolons stand in `bytes` from `from` on.
pub open spec fn params_len(bytes: Seq<u8>, from: int) -> nat
    decreases bytes.len() - from,
{
    if 0 <= from < bytes.len() && is_param(bytes[from]) {
        1 + params_len(bytes, from + 1)
    } else {
        0
    }
}

/// The escape sequence whose bytes after `ESC` start at `from`: a bracket,
/// a question mark or none, digits and semicolons, and one more byte. There
/// is none if the bracket is missing or the bytes end too soon.
pub open spec fn read_escape(bytes: Seq<u8>, from: int) -> Option<Escape> {
    if 0 <= from < bytes.len() && bytes[from] == BRACKET {
        let private = from + 1 < bytes.len() && bytes[from + 1] == QUESTION_MARK;
        let start = if private {
            from + 2
        } else {
            from + 1
        };
        let count = params_len(bytes, start);
        if start + count < bytes.len() {
            Some(
                Escape {
                    private,
                    params: bytes.subrange(start, start + count),
                    last: bytes[start + count],
                    len: (start + count + 1 - from) as nat,
                },
            )
        } else {
            None
        }
    } else {
        None
    }
}

/// Padding puts a character under the cursor and moves nothing.
pub proof fn lemma_padded(screen: Screen)
    requires
        0 <= screen.row,
        0 <= screen.column < usize::MAX,
    ensures
        screen.padded().wf(),
        screen.padded().column == screen.column,
        screen.padded().row == screen.row,
        screen.column < screen.padded().text[screen.row].len(),
{
}

/// No escape sequence takes the cursor off the screen: a move up or left
/// stops at the first row or column, and where the cursor comes to stand a
/// character stands under it.
pub proof fn lemma_escape_keeps_cursor(screen: Screen, escape: Escape)
    requires
        screen.wf(),
        screen.escape_effect(escape) is Some,
    ensures
        screen.escape_effect(escape).unwrap().wf(),
        screen.escape_effect(escape).unwrap().row >= 0,
        screen.escape_effect(escape).unwrap().column >= 0,
{
    let kind = escape_type(escape.last);
    let nums = numbers(escape.params).unwrap();
    let (x, y) = arguments(nums);
    let (column, row) = screen.target(kind, x, y);
    if !escape.private && kind != EscapeType::Erase {
        lemma_padded(Screen { column, row, ..screen });
    }
}

/// How a write ends: the screen it leaves, and whether all bytes were read.
pub struct Outcome {
    pub screen: Screen,
    pub ok: bool,
}

/// What becomes of `screen` when the bytes of `bytes` from `from` on are
/// read. Each byte is a line feed, a carriage return, the start of an escape
/// sequence, or an ordinary character. A sequence that the model does not
/// read, and a character in a column that no machine word holds, end the
/// reading at once and leave the screen as it then is.
pub open spec fn apply(screen: Screen, bytes: Seq<u8>, from: int) -> Outcome
    decreases bytes.len() - from,
{
    if from < 0 || from >= bytes.len() {
        Outcome { screen, ok: true }
    } else if bytes[from] == LINE_FEED {
        apply(screen.line_feed(), bytes, from + 1)
    } else if bytes[from] == CARRIAGE_RETURN {
        apply(screen.carriage_return(), bytes, from + 1)
    } else if bytes[from] == ESCAPE {
        match read_escape(bytes, from + 1) {
            Some(escape) => match screen.escape_effect(escape) {
                Some(next) => apply(next, bytes, from + 1 + escape.len),
                None => Outcome { screen, ok: false },
            },
            None => Outcome { screen, ok: false },
        }
    } else if screen.column + 1 < usize::MAX {
        apply(screen.put(bytes[from] as char), bytes, from + 1)
    } else {
        Outcome { screen, ok: false }
    }
}

/// What a write of `bytes` makes of `screen`: the bytes are read one after
/// the other, and when all are read the screen is padded. A write that
/// fails leaves the screen as it is where the reading ends.
pub open spec fn run(screen: Screen, bytes: Seq<u8>) -> Outcome {
    let read = apply(screen, bytes, 0);
    if read.ok {
        Outcome { screen: read.screen.padded(), ok: true }
    } else {
        read
    }
}

/// The rows as sequences of characters.
pub open spec fn rows_of(text: Seq<Vec<char>>) -> Seq<Seq<char>> {
    Seq::new(text.len(), |i: int| text[i]@)
}

/// The cursor: its column and its row, counted from zero.
#[derive(Debug, PartialEq, Eq)]
struct CursorPos(pub usize, pub usize);

/// The terminal model.
#[derive(Debug, PartialEq, Eq)]
pub struct RawTTYEmulator {
    text: Vec<Vec<char>>,
    cursor_pos: CursorPos,
}

impl View for RawTTYEmulator {
    type V = Screen;

    closed spec fn view(&self) -> Screen {
        Screen {
            text: rows_of(self.text@),
            column: self.cursor_pos.0 as int,
            row: self.cursor_pos.1 as int,
        }
    }
}

impl RawTTYEmulator {
    /// A terminal with one empty row.
    pub fn new() -> (terminal: RawTTYEmulator)
        ensures
            terminal@ == Screen::blank(),
            terminal@.wf(),
    {
        let mut text: Vec<Vec<char>> = Vec::new();
        text.push(Vec::new());
        let terminal = RawTTYEmulator { text, cursor_pos: CursorPos(0, 0) };
        assert(terminal@.text =~= Screen::blank().text);
        terminal
    }

    /// All rows.
    pub fn get_text(&self) -> (text: &Vec<Vec<char>>)
        ensures
            rows_of(text@) == self@.text,
    {
        &self.text
    }

    /// The row in which the cursor stands.
    pub fn get_line(&self) -> (line: &Vec<char>)
        requires
            self@.wf(),
        ensures
            line@ == self@.text[self@.row],
    {
        &self.text[self.cursor_pos.1]
    }

    /// The row in which the cursor stands, as a string.
    pub fn get_line_str(&self) -> (line: String)
        requires
            self@.wf(),
        ensures
            line@ == self@.text[self@.row],
    {
        string_from_chars(&self.text[self.cursor_pos.1])
    }

    /// Adds rows and spaces until a character stands under the cursor.
    #[verifier::loop_isolation(false)]
    fn extend_to_match_pos(&mut self)
        requires
            old(self)@.column < usize::MAX,
            old(self)@.row < usize::MAX,
        ensures
            final(self)@ == old(self)@.padded(),
            final(self)@.wf(),
    {
        let ghost before = self@;
        let column = self.cursor_pos.0;
        let row = self.cursor_pos.1;
        while row >= self.text.len()
            invariant
                self.cursor_pos == old(self).cursor_pos,
                row == self.cursor_pos.1,
                row < usize::MAX,
                before.text.len() <= self@.text.len(),
                self@.text.len() <= before.text.len() || self@.text.len() <= before.row + 1,
                forall|i: int| 0 <= i < before.text.len() ==> self@.text[i] == before.text[i],
                forall|i: int|
                    before.text.len() <= i < self@.text.len() ==> self@.text[i]
                        == Seq::<char>::empty(),
            decreases row + 1 - self.text.len(),
        {
            let ghost shorter = self@.text;
            self.text.push(Vec::new());
            assert(self@.text =~= shorter.push(Seq::empty()));
        }
        let ghost rows = self@.text;
        assert(rows =~= before.padded().text.update(before.row, rows[before.row]));
        while column >= self.text[row].len()
            invariant
                self.cursor_pos == old(self).cursor_pos,
                row == self.cursor_pos.1,
                column == self.cursor_pos.0,
                column < usize::MAX,
                row < self.text.len(),
                self@.text.len() == rows.len(),
                forall|i: int| 0 <= i < rows.len() && i != row ==> self@.text[i] == rows[i],
                rows[row as int].len() <= self@.text[row as int].len(),
                self@.text[row as int].len() <= rows[row as int].len() || self@.text[row as int].len()
                    <= column + 1,
                forall|i: int|
                    0 <= i < rows[row as int].len() ==> self@.text[row as int][i]
                        == rows[row as int][i],
                forall|i: int|
                    rows[row as int].len() <= i < self@.text[row as int].len()
                        ==> self@.text[row as int][i] == ' ',
            decreases column + 1 - self.text[row as int].len(),
        {
            let ghost shorter = self@.text;
            self.text[row].push(' ');
            assert(self@.text =~= shorter.update(row as int, shorter[row as int].push(' ')));
        }
        let ghost goal = before.padded().text;
        assert(rows.len() == goal.len());
        assert(self@.text[row as int] =~= goal[row as int]);
        assert forall|i: int| 0 <= i < goal.len() implies self@.text[i] == goal[i] by {
            if i != row {
                assert(self@.text[i] == rows[i]);
                if i < before.text.len() {
                    assert(rows[i] == before.text[i]);
                } else {
                    assert(rows[i] == Seq::<char>::empty());
                }
            }
        }
        assert(self@.text =~= goal);
    }
}


/// Whether `b` may stand among the numbers of an escape sequence.
fn is_param_byte(b: u8) -> (param: bool)
    ensures
        param == is_param(b),
{
    (DIGIT_ZERO <= b && b <= DIGIT_NINE) || b == SEMICOLON
}

impl RawTTYEmulator {
    /// Reads the escape sequence whose bytes after `ESC` start at `start`,
    /// and applies it. Returns where the sequence ends, or nothing, with the
    /// screen unchanged, if it is not a sequence that the model reads.
    fn handle_escape(&mut self, buf: &[u8], start: usize) -> (next: Option<usize>)
        requires
            old(self)@.wf(),
            start <= buf.len(),
        ensures
            final(self)@.wf(),
            match next {
                Some(next) => {
                    &&& read_escape(buf@, start as int) matches Some(escape)
                    &&& old(self)@.escape_effect(escape) == Some(final(self)@)
                    &&& next == start + escape.len
                    &&& next <= buf.len()
                },
                None => {
                    &&& final(self)@ == old(self)@
                    &&& read_escape(buf@, start as int) matches Some(escape)
                        ==> old(self)@.escape_effect(escape) is None
                },
            },
    {
        if start >= buf.len() || buf[start] != BRACKET {
            return None;
        }
        let mut at: usize = start + 1;
        let private = at < buf.len() && buf[at] == QUESTION_MARK;
        if private {
            at += 1;
        }
        let first: usize = at;
        while at < buf.len() && is_param_byte(buf[at])
            invariant
                first <= at <= buf.len(),
                forall|i: int| first <= i < at ==> is_param(#[trigger] buf@[i]),
                params_len(buf@, first as int) == (at - first) + params_len(buf@, at as int),
            decreases buf.len() - at,
        {
            at += 1;
        }
        if at >= buf.len() {
            return None;
        }
        let ghost escape = read_escape(buf@, start as int).unwrap();
        assert(escape.params == buf@.subrange(first as int, at as int));
        let kind = EscapeType::from(buf[at]);
        let nums = match parse_numbers(buf, first, at) {
            Some(nums) => nums,
            None => {
                return None;
            },
        };
        let (x, y): (usize, usize) = if nums.len() == 0 {
            (1, 1)
        } else if nums.len() == 1 {
            (nums[0], nums[0])
        } else {
            (nums[1], nums[0])
        };
        if private {
            return if kind == EscapeType::Mode {
                Some(at + 1)
            } else {
                None
            };
        }
        let column = self.cursor_pos.0;
        let row = self.cursor_pos.1;
        assert(row < self.text.len());
        let target: (usize, usize) = match kind {
            EscapeType::Erase => {
                return Some(at + 1);
            },
            EscapeType::Mode => {
                return None;
            },
            EscapeType::Unknown => {
                return None;
            },
            EscapeType::Left => (if x <= column { column - x } else { 0 }, row),
            EscapeType::Right => {
                if x >= usize::MAX - column {
                    return None;
                }
                (column + x, row)
            },
            EscapeType::Up => (column, if y <= row { row - y } else { 0 }),
            EscapeType::Down => {
                if y >= usize::MAX - row {
                    return None;
                }
                (column, row + y)
            },
            EscapeType::Home => (if 1 <= x { x - 1 } else { 0 }, if 1 <= y { y - 1 } else { 0 }),
        };
        self.cursor_pos = CursorPos(target.0, target.1);
        self.extend_to_match_pos();
        Some(at + 1)
    }

    /// Whether the cursor stands in one of the rows and a machine word holds
    /// the column behind it. Nothing in this module leaves a terminal
    /// otherwise.
    fn is_sound(&self) -> (sound: bool)
        ensures
            sound == self@.wf(),
    {
        self.cursor_pos.1 < self.text.len() && self.cursor_pos.0 < usize::MAX
    }

    /// Takes one ordinary character.
    fn put(&mut self, c: char)
        requires
            old(self)@.wf(),
            old(self)@.column + 1 < usize::MAX,
        ensures
            final(self)@ == old(self)@.put(c),
            final(self)@.wf(),
    {
        let ghost before = self@;
        let column = self.cursor_pos.0;
        let row = self.cursor_pos.1;
        if column < self.text[row].len() {
            self.text[row][column] = c;
        } else {
            self.text[row].push(c);
        }
        self.cursor_pos.0 = column + 1;
        assert(self@.text[row as int] =~= before.put(c).text[row as int]);
        assert(self@.text =~= before.put(c).text);
    }

    /// Takes a line feed.
    fn line_feed(&mut self)
        requires
            old(self)@.wf(),
        ensures
            final(self)@ == old(self)@.line_feed(),
            final(self)@.wf(),
    {
        let ghost before = self@;
        if self.cursor_pos.1 == self.text.len() - 1 {
            self.text.push(Vec::new());
        }
        self.cursor_pos.1 = self.cursor_pos.1 + 1;
        assert(self@.text =~= before.line_feed().text);
    }
}

impl IoWriteAlias for RawTTYEmulator {
    /// Applies the bytes of `buf` to the screen, one after the other.
    ///
    /// The write fails on the first escape sequence that the model does not
    /// read; the bytes before it stay applied. The model counts no bytes: a
    /// write that succeeds returns zero.
    fn write(&mut self, buf: &[u8]) -> (result: Result<usize, YeeshError>)
        ensures
            old(self)@.wf() ==> final(self)@ == run(old(self)@, buf@).screen,
            old(self)@.wf() ==> final(self)@.wf(),
            old(self)@.wf() ==> (result is Ok <==> run(old(self)@, buf@).ok),
            !old(self)@.wf() ==> result is Err && final(self)@ == old(self)@,
            result matches Ok(count) ==> count == 0,
    {
        if !self.is_sound() {
            return Err(YeeshError::new("Unable to parse escape sequence"));
        }
        let mut at: usize = 0;
        while at < buf.len()
            invariant
                at <= buf.len(),
                old(self)@.wf(),
                self@.wf(),
                apply(old(self)@, buf@, 0) == apply(self@, buf@, at as int),
            decreases buf.len() - at,
        {
            let b = buf[at];
            if b == LINE_FEED {
                self.line_feed();
                at += 1;
            } else if b == CARRIAGE_RETURN {
                self.cursor_pos.0 = 0;
                at += 1;
            } else if b == ESCAPE {
                match self.handle_escape(buf, at + 1) {
                    Some(next) => {
                        at = next;
                    },
                    None => {
                        return Err(YeeshError::new("Unable to parse escape sequence"));
                    },
                }
            } else {
                if self.cursor_pos.0 >= usize::MAX - 1 {
                    return Err(YeeshError::new("Unable to parse escape sequence"));
                }
                self.put(b as char);
                at += 1;
            }
        }
        assert(self.cursor_pos.1 < self.text.len());
        self.extend_to_match_pos();
        Ok(0)
    }

    fn flush(&mut self) -> (result: Result<(), YeeshError>)
        ensures
            result is Ok,
            final(self)@ == old(self)@,
    {
        Ok(())
    }
}

impl DetectCursorPosAlias for RawTTYEmulator {
    /// Where the cursor stands, as `(column, row)` counted from one.
    fn get_cursor_pos(&mut self) -> (position: (usize, usize))
        ensures
            final(self)@ == old(self)@,
            old(self)@.wf() ==> position.0 == old(self)@.column + 1 && position.1 == old(self)@.row
                + 1,
    {
        let column = self.cursor_pos.0;
        let row = self.cursor_pos.1;
        assert(self@.wf() ==> row < self.text.len());
        (
            if column < usize::MAX { column + 1 } else { column },
            if row < usize::MAX { row + 1 } else { row },
        )
    }
}

} // verus!
