use rust_os::vga_buffer::{ColorCode, Colors, Writer, _print, BUFFER_HEIGHT, BUFFER_WIDTH};

fn writer() -> Writer {
    Writer::new(ColorCode::new(Colors::White, Colors::LightBlue))
}

fn row_text(w: &Writer, row: usize, len: usize) -> String {
    let mut s = String::new();
    for col in 0..len {
        s.push(w.char_at(row, col).ascii_character as char);
    }
    s
}

#[test]
fn fresh_writer_shows_a_blank_screen() {
    let w = writer();
    assert_eq!(w.column(), 0);
    for row in 0..BUFFER_HEIGHT {
        for col in 0..BUFFER_WIDTH {
            assert_eq!(w.char_at(row, col).ascii_character, b' ');
        }
    }
}

#[test]
fn color_code_packs_background_high() {
    assert_eq!(ColorCode::new(Colors::White, Colors::LightBlue).0, 9 * 16 + 15);
    assert_eq!(ColorCode::new(Colors::Black, Colors::Black).0, 0);
    assert_eq!(ColorCode::new(Colors::Yellow, Colors::Red).0, 4 * 16 + 14);
}

#[test]
fn print_writes_to_the_bottom_line() {
    let mut w = writer();
    _print(&mut w, "abc");
    assert_eq!(row_text(&w, BUFFER_HEIGHT - 1, 3), "abc");
    assert_eq!(w.column(), 3);
    let cell = w.char_at(BUFFER_HEIGHT - 1, 0);
    assert_eq!(cell.color_code, ColorCode::new(Colors::White, Colors::LightBlue));
}

#[test]
fn newline_scrolls_the_bottom_line_up() {
    let mut w = writer();
    _print(&mut w, "x\n");
    assert_eq!(w.column(), 0);
    assert_eq!(w.char_at(BUFFER_HEIGHT - 2, 0).ascii_character, b'x');
    // The bottom line is blank again.
    for col in 0..BUFFER_WIDTH {
        assert_eq!(w.char_at(BUFFER_HEIGHT - 1, col).ascii_character, b' ');
    }
}

#[test]
fn long_line_wraps_at_the_right_edge() {
    let mut w = writer();
    let long: String = std::iter::repeat('z').take(BUFFER_WIDTH + 5).collect();
    _print(&mut w, &long);
    // The first 80 characters scrolled up one line; the overflow starts the
    // new bottom line.
    assert_eq!(row_text(&w, BUFFER_HEIGHT - 2, BUFFER_WIDTH), "z".repeat(BUFFER_WIDTH));
    assert_eq!(row_text(&w, BUFFER_HEIGHT - 1, 5), "zzzzz");
    assert_eq!(w.column(), 5);
}

#[test]
fn unprintable_bytes_show_the_fallback_glyph() {
    let mut w = writer();
    _print(&mut w, "a\u{1}b");
    assert_eq!(w.char_at(BUFFER_HEIGHT - 1, 0).ascii_character, b'a');
    assert_eq!(w.char_at(BUFFER_HEIGHT - 1, 1).ascii_character, 0xfe);
    assert_eq!(w.char_at(BUFFER_HEIGHT - 1, 2).ascii_character, b'b');
}

#[test]
fn many_lines_scroll_without_losing_the_latest() {
    let mut w = writer();
    for i in 0..200 {
        let line = format!("line {}", i);
        _print(&mut w, &line);
        _print(&mut w, "\n");
    }
    // The screen holds the most recent lines; the bottom-but-one is the last
    // one printed.
    assert_eq!(row_text(&w, BUFFER_HEIGHT - 2, 8), "line 199");
    assert_eq!(row_text(&w, BUFFER_HEIGHT - 3, 8), "line 198");
}

#[test]
fn output_matches_printed_string() {
    let mut w = writer();
    let s = "Some test string that fits on a single line";
    _print(&mut w, s);
    _print(&mut w, "\n");
    for (i, c) in s.chars().enumerate() {
        let cell = w.char_at(BUFFER_HEIGHT - 2, i);
        assert_eq!(char::from(cell.ascii_character), c);
    }
}

#[test]
fn color_values_cover_the_palette() {
    let all = [
        Colors::Black,
        Colors::Blue,
        Colors::Green,
        Colors::Cyan,
        Colors::Red,
        Colors::Magenta,
        Colors::Brown,
        Colors::LightGray,
        Colors::DarkGray,
        Colors::LightBlue,
        Colors::LightGreen,
        Colors::LightCyan,
        Colors::LightRed,
        Colors::Pink,
        Colors::Yellow,
        Colors::White,
    ];
    for (i, c) in all.iter().enumerate() {
        assert_eq!(c.value() as usize, i);
    }
}
