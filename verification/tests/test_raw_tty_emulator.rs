use yeesh::cmd_input::{DetectCursorPosAlias, IoWriteAlias};
use yeesh::fixture::raw_tty_emulator::RawTTYEmulator;

fn up() -> String {
    "\x1B[1A".to_string()
}

fn up_by(a: usize) -> String {
    format!("\x1B[{}A", a)
}

fn down() -> String {
    "\x1B[1B".to_string()
}

fn down_by(a: usize) -> String {
    format!("\x1B[{}B", a)
}

fn left_by(a: usize) -> String {
    format!("\x1B[{}D", a)
}

fn right() -> String {
    "\x1B[1C".to_string()
}

fn right_by(a: usize) -> String {
    format!("\x1B[{}C", a)
}

fn goto(x: usize, y: usize) -> String {
    format!("\x1B[{};{}H", y, x)
}

fn home() -> String {
    "\x1B[H".to_string()
}

#[test]
fn test_util_macros() {
    assert_eq!(up(), "\x1B[1A");
    assert_eq!(up_by(7), "\x1B[7A");
    assert_eq!(up_by(18), "\x1B[18A");

    assert_eq!(down(), "\x1B[1B");
    assert_eq!(down_by(7), "\x1B[7B");
    assert_eq!(down_by(18), "\x1B[18B");

    assert_eq!(down(), "\x1B[1B");
    assert_eq!(down_by(7), "\x1B[7B");
    assert_eq!(down_by(18), "\x1B[18B");

    assert_eq!(right(), "\x1B[1C");
    assert_eq!(right_by(7), "\x1B[7C");
    assert_eq!(right_by(18), "\x1B[18C");

    assert_eq!(goto(7, 5), "\x1B[5;7H");
    assert_eq!(goto(18, 11), "\x1B[11;18H");

    assert_eq!(home(), "\x1B[H");
}

#[test]
fn test_init() {
    let mut thing: RawTTYEmulator = RawTTYEmulator::new();

    assert!(thing.get_line().is_empty());
    assert_eq!(thing.get_text().len(), 1);
    assert_eq!(thing.get_line_str(), "");
    assert_eq!(thing.get_cursor_pos(), (1, 1));
}

#[test]
fn test_move_vertical() {
    let mut thing: RawTTYEmulator = RawTTYEmulator::new();

    // Make sure moving up at (0, 0) does nothing
    thing.write(up_by(10).as_bytes()).expect("This is a problem");
    assert_eq!(thing.get_cursor_pos(), (1, 1));

    // Move down
    thing.write(down_by(10).as_bytes()).expect("This is a problem");
    assert_eq!(thing.get_cursor_pos(), (1, 11));

    // Move up a bit and make sure we're in the right place
    thing.write(up_by(5).as_bytes()).expect("This is a problem");
    assert_eq!(thing.get_cursor_pos(), (1, 6));

    // move up past origin again
    thing.write(up_by(150).as_bytes()).expect("This is a problem");
    assert_eq!(thing.get_cursor_pos(), (1, 1));
}

#[test]
fn test_move_horizontal() {
    let mut thing: RawTTYEmulator = RawTTYEmulator::new();

    // Make sure moving left at (0, 0) does nothing
    thing.write(left_by(5).as_bytes()).expect("This is a problem");
    assert_eq!(thing.get_cursor_pos(), (1, 1));

    // Move right 10
    thing.write(right_by(10).as_bytes()).expect("This is a problem");
    assert_eq!(thing.get_cursor_pos(), (11, 1));

    // Move left 5
    thing.write(left_by(5).as_bytes()).expect("This is a problem");
    assert_eq!(thing.get_cursor_pos(), (6, 1));

    // Move left past origin
    thing.write(left_by(100).as_bytes()).expect("This is a problem");
    assert_eq!(thing.get_cursor_pos(), (1, 1));
}

#[test]
fn test_goto() {
    let mut thing: RawTTYEmulator = RawTTYEmulator::new();

    thing.write(goto(10, 10).as_bytes()).expect("This is a problem");
    assert_eq!(thing.get_cursor_pos(), (10, 10));

    thing.write(goto(5, 1).as_bytes()).expect("This is a problem");
    assert_eq!(thing.get_cursor_pos(), (5, 1));
}

#[test]
fn test_home() {
    let mut thing: RawTTYEmulator = RawTTYEmulator::new();

    thing.write(goto(10, 10).as_bytes()).expect("This is a problem");
    assert_eq!(thing.get_cursor_pos(), (10, 10));

    thing.write(home().as_bytes()).expect("This is a problem");
    assert_eq!(thing.get_cursor_pos(), (1, 1));
}

#[test]
fn test_newline() {
    let mut thing: RawTTYEmulator = RawTTYEmulator::new();
    let init_len = thing.get_text().len();

    thing.write(&[b'\n']).expect("This is a problem");
    assert_eq!(thing.get_cursor_pos(), (1, 2));
    assert_eq!(thing.get_text().len(), init_len + 1);

    thing.write(goto(10, 10).as_bytes()).expect("This is a problem");
    thing.write(&[b'\n']).expect("This is a problem");
    assert_eq!(thing.get_cursor_pos(), (10, 11));
    assert_eq!(thing.get_text().len(), 11);
}

#[test]
fn test_carriage_return() {
    let mut thing: RawTTYEmulator = RawTTYEmulator::new();

    thing.write(&[b'\r']).expect("This is a problem");
    assert_eq!(thing.get_cursor_pos(), (1, 1));

    thing.write(goto(10, 10).as_bytes()).expect("This is a problem");
    thing.write(&[b'\r']).expect("This is a problem");
    assert_eq!(thing.get_cursor_pos(), (1, 10));
}

#[test]
fn test_input_at_correct_pos() {
    let mut thing: RawTTYEmulator = RawTTYEmulator::new();
    let input = "hello";

    thing.write(input.as_bytes()).expect("This is a problem");
    assert_eq!(thing.get_cursor_pos(), (1 + input.len(), 1));
    assert_eq!(thing.get_line_str(), input.to_owned() + " ");

    thing.write(goto(10, 10).as_bytes()).expect("This is a problem");
    thing.write(input.as_bytes()).expect("This is a problem");
    assert_eq!(thing.get_cursor_pos(), (10 + input.len(), 10));
    assert_eq!(
        thing.get_line_str(),
        format!("{}{} ", String::from_utf8_lossy(vec![b' '; 9].as_slice()), input)
    );
}

#[test]
fn test_input_overwrite() {
    let mut thing: RawTTYEmulator = RawTTYEmulator::new();
    let input1 = "hello";
    let input2 = "there";
    let input3 = "w";

    thing.write(input1.as_bytes()).expect("This is a problem");
    thing.write(home().as_bytes()).expect("This is a problem");
    thing.write(input2.as_bytes()).expect("This is a problem");
    assert_eq!(thing.get_line_str(), input2.to_owned() + " ");

    thing.write(home().as_bytes()).expect("This is a problem");
    thing.write(input3.as_bytes()).expect("This is a problem");
    assert_eq!(thing.get_line_str(), "where ");
}

#[test]
fn test_cursor_round_trip() {
    let mut thing = RawTTYEmulator::new();

    thing.write(b"\x1B[10;10H").expect("goto is read");
    assert_eq!(thing.get_cursor_pos(), (10, 10));

    thing.write(b"\x1B[5A").expect("up is read");
    assert_eq!(thing.get_cursor_pos(), (10, 5));

    thing.write(b"\x1B[99A\x1B[99D").expect("moves are read");
    assert_eq!(thing.get_cursor_pos(), (1, 1));
}

#[test]
fn test_moves_default_to_one() {
    let mut thing = RawTTYEmulator::new();
    thing.write(b"\x1B[B\x1B[B\x1B[C\x1B[C\x1B[C").expect("moves are read");
    assert_eq!(thing.get_cursor_pos(), (4, 3));
    thing.write(b"\x1B[A\x1B[D").expect("moves are read");
    assert_eq!(thing.get_cursor_pos(), (3, 2));
}

#[test]
fn test_write_counts_no_bytes() {
    let mut thing = RawTTYEmulator::new();
    assert_eq!(thing.write(b"hello").expect("plain text is read"), 0);
    assert!(thing.flush().is_ok());
}

#[test]
fn test_cursor_visibility_and_erase_change_nothing() {
    let mut thing = RawTTYEmulator::new();
    thing.write(b"hello").expect("plain text is read");
    thing.write(b"\x1B[3D").expect("left is read");
    let text = thing.get_text().clone();
    let position = thing.get_cursor_pos();

    thing.write(b"\x1B[?25l\x1B[K\x1B[?25h").expect("the sequences are read");
    assert_eq!(thing.get_text(), &text);
    assert_eq!(thing.get_cursor_pos(), position);
    assert_eq!(thing.get_line_str(), "hello ");
}

#[test]
fn test_unknown_sequence_fails_and_keeps_what_came_before() {
    let mut thing = RawTTYEmulator::new();
    let result = thing.write(b"ab\x1B[5Zcd");
    assert!(result.is_err());
    assert_eq!(result.unwrap_err().to_string(), "Unable to parse escape sequence");
    assert_eq!(thing.get_line_str(), "ab");
    assert_eq!(thing.get_cursor_pos(), (3, 1));

    thing.write(b"c").expect("plain text is read");
    assert_eq!(thing.get_line_str(), "abc ");
}

#[test]
fn test_malformed_sequences_fail() {
    for bad in [
        &b"\x1B"[..],
        &b"\x1BA"[..],
        &b"\x1B["[..],
        &b"\x1B[12"[..],
        &b"\x1B[12;"[..],
        &b"\x1B[;H"[..],
        &b"\x1B[5;H"[..],
        &b"\x1B[;5H"[..],
        &b"\x1B[?25K"[..],
        &b"\x1B[J"[..],
        &b"\x1B[2J"[..],
        &b"\x1B[25l"[..],
        &b"\x1B[99999999999999999999999999A"[..],
        &b"\x1B[1x"[..],
    ] {
        let mut thing = RawTTYEmulator::new();
        assert!(thing.write(bad).is_err());
        assert_eq!(thing.get_cursor_pos(), (1, 1));
        assert_eq!(thing.get_text().len(), 1);
    }
}

#[test]
fn test_goto_with_zero_stops_at_the_corner() {
    let mut thing = RawTTYEmulator::new();
    thing.write(b"\x1B[0;0H").expect("goto is read");
    assert_eq!(thing.get_cursor_pos(), (1, 1));
    thing.write(b"\x1B[3H").expect("goto is read");
    assert_eq!(thing.get_cursor_pos(), (3, 3));
    thing.write(b"\x1B[2;7;9H").expect("goto is read");
    assert_eq!(thing.get_cursor_pos(), (7, 2));
}

#[test]
fn test_text_after_line_feed_is_added_at_row_start() {
    let mut thing = RawTTYEmulator::new();
    thing.write(b"hello\nXY").expect("plain text is read");
    assert_eq!(thing.get_cursor_pos(), (8, 2));
    assert_eq!(thing.get_line_str(), "XY      ");
    assert_eq!(thing.get_text()[0], "hello".chars().collect::<Vec<char>>());
}

#[test]
fn test_line_feed_inside_the_screen_adds_no_row() {
    let mut thing = RawTTYEmulator::new();
    thing.write(b"\x1B[5;1H").expect("goto is read");
    assert_eq!(thing.get_text().len(), 5);
    thing.write(b"\x1B[3A\n").expect("moves are read");
    assert_eq!(thing.get_cursor_pos(), (1, 3));
    assert_eq!(thing.get_text().len(), 5);
}

#[test]
fn test_hide_show_and_clear_after_text() {
    for sequence in [&b"\x1B[?25l"[..], &b"\x1B[?25h"[..], &b"\x1B[K"[..]] {
        let mut emu = RawTTYEmulator::new();
        emu.write(b"hi").expect("plain text is read");
        let text = emu.get_text().clone();
        assert!(emu.write(sequence).is_ok());
        assert_eq!(emu.get_cursor_pos(), (3, 1));
        assert_eq!(emu.get_text(), &text);
    }
}
