//! The terminal model reads what the line editor paints.
//!
//! The bytes that paint a line are read by the model without error. They
//! leave the cursor where the editor's cursor is, and the buffer in the
//! cursor's row behind the prompt.

use vstd::prelude::*;

use crate::cmd_input::render::{
    buffer_bytes, decimal, erase_bytes, goto_bytes, hide_bytes, low_byte, rendered, show_bytes,
};
use crate::fixture::raw_tty_emulator::{
    apply, arguments, escape_type, is_digit, is_param, lemma_padded, numbers, read_escape,
    read_numbers, run, EscapeType, Numbers, Outcome, Screen, BRACKET, CARRIAGE_RETURN, ESCAPE,
    LINE_FEED, QUESTION_MARK, SEMICOLON,
};
use crate::fixture::sequences::{lemma_apply_in_two, lemma_params_counted};

verus! {

/// A number is written with at least one digit, and with digits only.
pub proof fn lemma_decimal_digits(n: nat)
    ensures
        decimal(n).len() >= 1,
        forall|i: int| 0 <= i < decimal(n).len() ==> is_digit(#[trigger] decimal(n)[i]),
    decreases n,
{
    if n >= 10 {
        lemma_decimal_digits(n / 10);
    }
}

/// Reading the digits of a number gives the number.
proof fn lemma_read_decimal(params: Seq<u8>, start: int, n: nat)
    requires
        n <= usize::MAX,
        0 <= start,
        start + decimal(n).len() <= params.len(),
        params.subrange(start, start + decimal(n).len()) == decimal(n),
        read_numbers(params, start).ok,
        read_numbers(params, start).value == 0,
    ensures
        read_numbers(params, start + decimal(n).len()) == (Numbers {
            done: read_numbers(params, start).done,
            value: n as int,
            pending: true,
            ok: true,
        }),
    decreases n,
{
    let digits = decimal(n);
    let end = start + digits.len();
    lemma_decimal_digits(n);
    assert(params[end - 1] == digits[digits.len() - 1]);
    assert(read_numbers(params, end) == read_numbers(params, end - 1).step(params[end - 1]));
    if n >= 10 {
        let shorter = decimal(n / 10);
        assert(digits.drop_last() =~= shorter);
        assert(params.subrange(start, start + shorter.len()) =~= digits.drop_last());
        lemma_read_decimal(params, start, n / 10);
    }
}

/// The model reads the sequence that puts the cursor in column `x` of row
/// `y`, counted from one, and puts its cursor there.
pub proof fn lemma_reads_goto(screen: Screen, x: nat, y: nat)
    requires
        screen.wf(),
        x <= usize::MAX,
        y <= usize::MAX,
    ensures
        apply(screen, goto_bytes(x, y), 0) == (Outcome {
            screen: Screen {
                column: if x >= 1 {
                    x - 1
                } else {
                    0
                },
                row: if y >= 1 {
                    y - 1
                } else {
                    0
                },
                ..screen
            }.padded(),
            ok: true,
        }),
{
    let bytes = goto_bytes(x, y);
    let rows = decimal(y);
    let columns = decimal(x);
    let count: nat = rows.len() + 1 + columns.len();
    lemma_decimal_digits(x);
    lemma_decimal_digits(y);
    assert(bytes.len() == count + 3);
    assert(bytes[0] == ESCAPE);
    assert(bytes[1] == BRACKET);
    assert(bytes[2] == rows[0]);
    assert forall|i: int| 2 <= i < 2 + count implies is_param(#[trigger] bytes[i]) by {
        if i < 2 + rows.len() {
            assert(bytes[i] == rows[i - 2]);
        } else if i == 2 + rows.len() {
            assert(bytes[i] == SEMICOLON);
        } else {
            assert(bytes[i] == columns[i - 3 - rows.len()]);
        }
    }
    assert(bytes[2 + count as int] == 0x48);
    lemma_params_counted(bytes, 2, count);
    let escape = read_escape(bytes, 1).unwrap();
    let params = escape.params;
    assert(params =~= rows + seq![SEMICOLON] + columns);
    assert(escape.last == 0x48);
    assert(!escape.private);
    assert(escape.len == count + 2);

    assert(params.subrange(0, rows.len() as int) =~= rows);
    lemma_read_decimal(params, 0, y);
    let middle = rows.len() as int;
    assert(params[middle] == SEMICOLON);
    assert(read_numbers(params, middle + 1) == read_numbers(params, middle).step(params[middle]));
    assert(params.subrange(middle + 1, middle + 1 + columns.len()) =~= columns);
    lemma_read_decimal(params, middle + 1, x);
    assert(numbers(params) == Some(seq![y as usize, x as usize])) by {
        assert(Seq::<usize>::empty().push(y as usize).push(x as usize) =~= seq![
            y as usize,
            x as usize,
        ]);
    }
    assert(arguments(seq![y as usize, x as usize]) == (x as int, y as int));
    assert(escape_type(escape.last) == EscapeType::Home);
    assert(apply(screen.escape_effect(escape).unwrap(), bytes, 1 + escape.len as int).ok);
}

/// The model reads the sequences that hide and show the cursor and the one
/// that clears the row behind it, and changes nothing.
pub proof fn lemma_reads_marks(screen: Screen)
    requires
        screen.wf(),
    ensures
        apply(screen, hide_bytes(), 0) == (Outcome { screen, ok: true }),
        apply(screen, show_bytes(), 0) == (Outcome { screen, ok: true }),
        apply(screen, erase_bytes(), 0) == (Outcome { screen, ok: true }),
{
    lemma_reads_mode(screen, hide_bytes());
    lemma_reads_mode(screen, show_bytes());
    let erase = erase_bytes();
    lemma_params_counted(erase, 2, 0);
    let escape = read_escape(erase, 1).unwrap();
    assert(escape.params =~= Seq::<u8>::empty());
    assert(apply(screen, erase, 3).ok);
}

/// The model reads `ESC [ ? 2 5` with `h` or `l` behind it, and changes
/// nothing.
proof fn lemma_reads_mode(screen: Screen, bytes: Seq<u8>)
    requires
        screen.wf(),
        bytes.len() == 6,
        bytes[0] == ESCAPE,
        bytes[1] == BRACKET,
        bytes[2] == QUESTION_MARK,
        bytes[3] == 0x32,
        bytes[4] == 0x35,
        bytes[5] == 0x68 || bytes[5] == 0x6C,
    ensures
        apply(screen, bytes, 0) == (Outcome { screen, ok: true }),
{
    lemma_params_counted(bytes, 3, 2);
    let escape = read_escape(bytes, 1).unwrap();
    let params = escape.params;
    assert(params =~= seq![0x32u8, 0x35u8]);
    assert(read_numbers(params, 2) == read_numbers(params, 1).step(params[1]));
    assert(read_numbers(params, 1) == read_numbers(params, 0).step(params[0]));
    assert(numbers(params) is Some);
    assert(escape_type(escape.last) == EscapeType::Mode);
    assert(apply(screen, bytes, 6).ok);
}

/// Whether `b` is read as an ordinary character.
pub open spec fn is_plain(b: u8) -> bool {
    b != ESCAPE && b != LINE_FEED && b != CARRIAGE_RETURN
}

/// The screen after the bytes of `bytes` are put as characters, one after
/// the other.
pub open spec fn put_all(screen: Screen, bytes: Seq<u8>) -> Screen
    decreases bytes.len(),
{
    if bytes.len() == 0 {
        screen
    } else {
        put_all(screen.put(bytes[0] as char), bytes.drop_first())
    }
}

/// Ordinary characters are read by putting them.
proof fn lemma_reads_plain(screen: Screen, bytes: Seq<u8>, from: int)
    requires
        0 <= from <= bytes.len(),
        forall|i: int| 0 <= i < bytes.len() ==> is_plain(#[trigger] bytes[i]),
        screen.column + (bytes.len() - from) < usize::MAX,
    ensures
        apply(screen, bytes, from) == (Outcome {
            screen: put_all(screen, bytes.skip(from)),
            ok: true,
        }),
    decreases bytes.len() - from,
{
    let rest = bytes.skip(from);
    if from < bytes.len() {
        assert(is_plain(bytes[from]));
        assert(rest[0] == bytes[from]);
        assert(rest.drop_first() =~= bytes.skip(from + 1));
        lemma_reads_plain(screen.put(bytes[from] as char), bytes, from + 1);
    }
}

/// Characters put where the cursor stands in its row or right behind it
/// come to stand in the row one after the other from the cursor on. What
/// stands before the cursor stays, and so do the other rows.
proof fn lemma_put_all(screen: Screen, bytes: Seq<u8>)
    requires
        screen.wf(),
        screen.column <= screen.text[screen.row].len(),
        screen.column + bytes.len() < usize::MAX,
    ensures
        put_all(screen, bytes).wf(),
        put_all(screen, bytes).row == screen.row,
        put_all(screen, bytes).column == screen.column + bytes.len(),
        put_all(screen, bytes).text.len() == screen.text.len(),
        put_all(screen, bytes).text[screen.row].len() >= screen.column + bytes.len(),
        forall|i: int|
            0 <= i < screen.column ==> put_all(screen, bytes).text[screen.row][i]
                == screen.text[screen.row][i],
        forall|i: int|
            0 <= i < bytes.len() ==> put_all(screen, bytes).text[screen.row][screen.column + i]
                == bytes[i] as char,
        forall|r: int|
            0 <= r < screen.text.len() && r != screen.row ==> put_all(screen, bytes).text[r]
                == screen.text[r],
    decreases bytes.len(),
{
    if bytes.len() > 0 {
        let next = screen.put(bytes[0] as char);
        let rest = bytes.drop_first();
        lemma_put_all(next, rest);
        let last = put_all(screen, bytes);
        assert(last == put_all(next, rest));
        assert forall|i: int| 0 <= i < screen.column implies last.text[screen.row][i]
            == screen.text[screen.row][i] by {
            assert(last.text[next.row][i] == next.text[next.row][i]);
        }
        assert forall|r: int| 0 <= r < screen.text.len() && r != screen.row implies last.text[r]
            == screen.text[r] by {
            assert(last.text[r] == next.text[r]);
        }
        assert forall|i: int| 0 <= i < bytes.len() implies last.text[screen.row][screen.column + i]
            == bytes[i] as char by {
            if i > 0 {
                assert(last.text[next.row][next.column + (i - 1)] == rest[i - 1] as char);
            } else {
                assert(last.text[next.row][screen.column] == next.text[next.row][screen.column]);
            }
        }
    }
}


/// Padding keeps every character that is on the screen, and what it adds
/// to the cursor's row are spaces.
proof fn lemma_padded_keeps(screen: Screen)
    requires
        0 <= screen.row,
        0 <= screen.column < usize::MAX,
    ensures
        screen.padded().text.len() >= screen.text.len(),
        forall|r: int|
            0 <= r < screen.text.len() && r != screen.row ==> #[trigger] screen.padded().text[r]
                == screen.text[r],
        forall|i: int|
            0 <= i < screen.padded().text[screen.row].len() ==> #[trigger] screen.padded().text[screen.row][i]
                == if screen.row < screen.text.len() && i < screen.text[screen.row].len() {
                screen.text[screen.row][i]
            } else {
                ' '
            },
        screen.row < screen.text.len() ==> screen.padded().text[screen.row].len()
            >= screen.text[screen.row].len(),
        screen.row < screen.text.len() && screen.column < screen.text[screen.row].len()
            ==> screen.padded() == screen,
{
    if screen.row < screen.text.len() && screen.column < screen.text[screen.row].len() {
        assert(screen.padded().text =~= screen.text);
    }
}

/// Whether every character of `buffer` is written as a byte that the model
/// reads as an ordinary character.
pub open spec fn is_plain_text(buffer: Seq<char>) -> bool {
    forall|i: int| 0 <= i < buffer.len() ==> is_plain(low_byte(#[trigger] buffer[i]))
}

/// The model reads what the editor paints.
///
/// Written to any screen, the bytes that paint a line of ordinary characters
/// behind a prompt of `prompt` cells in row `row` are read without error.
/// They leave the cursor in that row, as many cells behind the prompt as the
/// editor's cursor stands in the buffer, and the buffer in that row from the
/// end of the prompt on. The cells of the prompt stay as they were, spaces
/// where there were none, and so do the other rows.
pub proof fn lemma_model_reads_painting(
    screen: Screen,
    row: nat,
    buffer: Seq<char>,
    cursor: nat,
    prompt: nat,
)
    requires
        screen.wf(),
        1 <= row <= u16::MAX,
        prompt + cursor + 1 <= u16::MAX,
        prompt + buffer.len() + 1 < usize::MAX,
        is_plain_text(buffer),
    ensures
        run(screen, rendered(row, buffer, cursor, prompt)).ok,
        run(screen, rendered(row, buffer, cursor, prompt)).screen.wf(),
        run(screen, rendered(row, buffer, cursor, prompt)).screen.row == row - 1,
        run(screen, rendered(row, buffer, cursor, prompt)).screen.column == prompt + cursor,
        run(screen, rendered(row, buffer, cursor, prompt)).screen.text[row - 1].len() >= prompt
            + buffer.len(),
        forall|i: int|
            0 <= i < buffer.len() ==> run(
                screen,
                rendered(row, buffer, cursor, prompt),
            ).screen.text[row - 1][prompt + i] == low_byte(#[trigger] buffer[i]) as char,
        forall|i: int|
            0 <= i < prompt ==> #[trigger] run(
                screen,
                rendered(row, buffer, cursor, prompt),
            ).screen.text[row - 1][i] == if row - 1 < screen.text.len() && i < screen.text[row
                - 1].len() {
                screen.text[row - 1][i]
            } else {
                ' '
            },
        forall|r: int|
            0 <= r < screen.text.len() && r != row - 1 ==> #[trigger] run(
                screen,
                rendered(row, buffer, cursor, prompt),
            ).screen.text[r] == screen.text[r],
{
    let line = row - 1;
    let text = buffer_bytes(buffer);
    let start = goto_bytes(prompt + 1, row);
    let end = goto_bytes(prompt + cursor + 1, row);

    let moved = Screen { column: prompt as int, row: line, ..screen };
    let at_start = moved.padded();
    lemma_padded(moved);
    lemma_padded_keeps(moved);

    assert forall|i: int| 0 <= i < text.len() implies is_plain(#[trigger] text[i]) by {
        assert(is_plain(low_byte(buffer[i])));
    }
    let written = put_all(at_start, text);
    lemma_put_all(at_start, text);

    let returned = Screen { column: (prompt + cursor) as int, row: line, ..written };
    let at_end = returned.padded();
    lemma_padded(returned);
    lemma_padded_keeps(returned);
    lemma_padded_keeps(Screen { column: (prompt + cursor) as int, row: line, ..at_end });
    lemma_padded_keeps(at_end);

    let first = hide_bytes();
    lemma_reads_marks(screen);
    lemma_reads_goto(screen, prompt + 1, row);
    lemma_apply_in_two(screen, first, start);
    let second = first + start;
    assert(apply(screen, second, 0) == (Outcome { screen: at_start, ok: true }));

    lemma_reads_marks(at_start);
    lemma_apply_in_two(screen, second, erase_bytes());
    let third = second + erase_bytes();
    assert(apply(screen, third, 0) == (Outcome { screen: at_start, ok: true }));

    assert(text.skip(0) =~= text);
    lemma_reads_plain(at_start, text, 0);
    lemma_apply_in_two(screen, third, text);
    let fourth = third + text;
    assert(apply(screen, fourth, 0) == (Outcome { screen: written, ok: true }));

    lemma_reads_goto(written, prompt + cursor + 1, row);
    lemma_apply_in_two(screen, fourth, end);
    let fifth = fourth + end;
    assert(apply(screen, fifth, 0) == (Outcome { screen: at_end, ok: true }));

    lemma_reads_marks(at_end);
    lemma_apply_in_two(screen, fifth, show_bytes());
    let sixth = fifth + show_bytes();
    assert(apply(screen, sixth, 0) == (Outcome { screen: at_end, ok: true }));

    lemma_reads_goto(at_end, prompt + cursor + 1, row);
    lemma_apply_in_two(screen, sixth, end);
    assert(sixth + end == rendered(row, buffer, cursor, prompt));
    assert(apply(screen, rendered(row, buffer, cursor, prompt), 0) == (Outcome {
        screen: at_end,
        ok: true,
    }));
    let painted = run(screen, rendered(row, buffer, cursor, prompt)).screen;
    assert(painted == at_end);

    assert forall|i: int| 0 <= i < buffer.len() implies painted.text[line][prompt + i] == low_byte(
        #[trigger] buffer[i],
    ) as char by {
        assert(written.text[line][at_start.column + i] == text[i] as char);
        assert(at_end.text[line][prompt + i] == written.text[line][prompt + i]);
    }
    assert forall|i: int| 0 <= i < prompt implies #[trigger] painted.text[line][i] == if line
        < screen.text.len() && i < screen.text[line].len() {
        screen.text[line][i]
    } else {
        ' '
    } by {
        assert(written.text[line][i] == at_start.text[line][i]);
        assert(at_end.text[line][i] == written.text[line][i]);
    }
    assert forall|r: int| 0 <= r < screen.text.len() && r != line implies #[trigger] painted.text[r]
        == screen.text[r] by {
        assert(at_start.text[r] == screen.text[r]);
        assert(written.text[r] == at_start.text[r]);
        assert(at_end.text[r] == written.text[r]);
    }
}

} // verus!
