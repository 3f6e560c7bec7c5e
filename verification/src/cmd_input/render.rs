//! Painting the line: the bytes that put the buffer and the cursor on the
//! terminal.
//!
//! The whole line is painted anew each time: the cursor is hidden and put
//! behind the prompt, the rest of the row is cleared, the buffer is
//! written, and the cursor is put where it belongs and shown again. The
//! cursor is put there once more after it is shown, for terminals that
//! forget the position when they show the cursor.

use termion::{clear, cursor};
use vstd::prelude::*;

verus! {

/// The decimal digits of `n`, as bytes.
pub open spec fn decimal(n: nat) -> Seq<u8>
    decreases n,
{
    if n < 10 {
        seq![(0x30 + n) as u8]
    } else {
        decimal(n / 10).push((0x30 + n % 10) as u8)
    }
}

/// The sequence that hides the cursor: `ESC [ ? 2 5 l`.
pub open spec fn hide_bytes() -> Seq<u8> {
    seq![0x1Bu8, 0x5Bu8, 0x3Fu8, 0x32u8, 0x35u8, 0x6Cu8]
}

/// The sequence that shows the cursor: `ESC [ ? 2 5 h`.
pub open spec fn show_bytes() -> Seq<u8> {
    seq![0x1Bu8, 0x5Bu8, 0x3Fu8, 0x32u8, 0x35u8, 0x68u8]
}

/// The sequence that clears the row from the cursor to its end: `ESC [ K`.
pub open spec fn erase_bytes() -> Seq<u8> {
    seq![0x1Bu8, 0x5Bu8, 0x4Bu8]
}

/// The sequence that puts the cursor in column `x` of row `y`, both counted
/// from one: `ESC [ y ; x H`.
pub open spec fn goto_bytes(x: nat, y: nat) -> Seq<u8> {
    seq![0x1Bu8, 0x5Bu8] + decimal(y) + seq![0x3Bu8] + decimal(x) + seq![0x48u8]
}

/// The byte that a character of the buffer is written as: its code point,
/// cut to eight bits.
pub open spec fn low_byte(c: char) -> u8 {
    ((c as u32) % 256) as u8
}

/// The bytes of the buffer.
pub open spec fn buffer_bytes(buffer: Seq<char>) -> Seq<u8> {
    Seq::new(buffer.len(), |i: int| low_byte(buffer[i]))
}

/// The bytes that paint `buffer` behind a prompt of `prompt` cells in row
/// `row`, counted from one, and leave the cursor at index `cursor` of the
/// buffer.
pub open spec fn rendered(row: nat, buffer: Seq<char>, cursor: nat, prompt: nat) -> Seq<u8> {
    hide_bytes() + goto_bytes(prompt + 1, row) + erase_bytes() + buffer_bytes(buffer) + goto_bytes(
        prompt + cursor + 1,
        row,
    ) + show_bytes() + goto_bytes(prompt + cursor + 1, row)
}

/// The bytes that `termion::cursor::Hide` prints. Its `Display` writes the
/// fixed text `ESC [ ? 2 5 l`; the contract claims those bytes.
#[verifier::external_body]
fn hide_cursor() -> (bytes: Vec<u8>)
    ensures
        bytes@ == hide_bytes(),
{
    cursor::Hide.to_string().into_bytes()
}

/// The bytes that `termion::cursor::Show` prints. Its `Display` writes the
/// fixed text `ESC [ ? 2 5 h`; the contract claims those bytes.
#[verifier::external_body]
fn show_cursor() -> (bytes: Vec<u8>)
    ensures
        bytes@ == show_bytes(),
{
    cursor::Show.to_string().into_bytes()
}

/// The bytes that `termion::clear::UntilNewline` prints. Its `Display`
/// writes the fixed text `ESC [ K`; the contract claims those bytes.
#[verifier::external_body]
fn clear_until_newline() -> (bytes: Vec<u8>)
    ensures
        bytes@ == erase_bytes(),
{
    clear::UntilNewline.to_string().into_bytes()
}

/// The bytes that `termion::cursor::Goto(x, y)` prints. Its `Display`
/// writes `ESC [`, the row, a semicolon, the column and `H`, the numbers in
/// decimal; the contract claims those bytes. In a debug build it refuses the
/// position `(0, 0)`, which the precondition leaves out.
#[verifier::external_body]
fn goto(x: u16, y: u16) -> (bytes: Vec<u8>)
    requires
        x != 0 || y != 0,
    ensures
        bytes@ == goto_bytes(x as nat, y as nat),
{
    cursor::Goto(x, y).to_string().into_bytes()
}

/// The bytes that paint the line.
///
/// `current_cursor_row` is the row the terminal reports, counted from one;
/// `prompt_length` is the number of cells the prompt takes in that row. The
/// terminal counts rows and columns in sixteen bits, so the row and the
/// cursor's column must fit.
pub fn render_line(
    current_cursor_row: usize,
    buffer: &Vec<char>,
    cursor_index: usize,
    prompt_length: usize,
) -> (bytes: Vec<u8>)
    requires
        current_cursor_row <= u16::MAX,
        prompt_length + cursor_index + 1 <= u16::MAX,
    ensures
        bytes@ == rendered(
            current_cursor_row as nat,
            buffer@,
            cursor_index as nat,
            prompt_length as nat,
        ),
{
    let row: u16 = current_cursor_row as u16;
    let start: u16 = (prompt_length + 1) as u16;
    let column: u16 = (prompt_length + cursor_index + 1) as u16;
    let mut bytes = hide_cursor();
    let mut part = goto(start, row);
    bytes.append(&mut part);
    part = clear_until_newline();
    bytes.append(&mut part);
    let ghost painted = bytes@;
    let mut i: usize = 0;
    while i < buffer.len()
        invariant
            i <= buffer.len(),
            bytes@ == painted + buffer_bytes(buffer@.take(i as int)),
        decreases buffer.len() - i,
    {
        let c = buffer[i];
        bytes.push((c as u32 % 256) as u8);
        assert(buffer_bytes(buffer@.take(i + 1)) =~= buffer_bytes(buffer@.take(i as int)).push(
            low_byte(c),
        ));
        i += 1;
    }
    assert(buffer@.take(buffer.len() as int) =~= buffer@);
    part = goto(column, row);
    bytes.append(&mut part);
    part = show_cursor();
    bytes.append(&mut part);
    part = goto(column, row);
    bytes.append(&mut part);
    bytes
}

} // verus!
