use early_boot::vga_buffer::{
    Color, ColorCode, ScreenChar, Writer, BUFFER_HEIGHT, BUFFER_WIDTH,
};

fn green() -> ColorCode {
    ColorCode::new(Color::LightGreen, Color::Black)
}

fn cell(b: u8, color: ColorCode) -> ScreenChar {
    ScreenChar { ascii_character: b, color_code: color }
}

fn blank(color: ColorCode) -> ScreenChar {
    cell(b' ', color)
}

#[test]
fn color_code_packs_background_high_nibble() {
    assert_eq!(ColorCode::new(Color::LightGreen, Color::Black).0, 0x0a);
    assert_eq!(ColorCode::new(Color::White, Color::Blue).0, 0x1f);
    assert_eq!(ColorCode::new(Color::Black, Color::Yellow).0, 0xe0);
    assert_eq!(Color::Pink.value(), 13);
}

#[test]
fn new_writer_is_blank() {
    let w = Writer::new(green());
    assert_eq!(w.column_position(), 0);
    assert_eq!(w.color_code(), green());
    for row in 0..BUFFER_HEIGHT {
        for col in 0..BUFFER_WIDTH {
            assert_eq!(w.char_at(row, col), blank(green()));
        }
    }
}

#[test]
fn hi_newline_bang() {
    let mut w = Writer::new(green());
    w.write_str("Hi\n!");
    assert_eq!(w.char_at(BUFFER_HEIGHT - 2, 0), cell(b'H', green()));
    assert_eq!(w.char_at(BUFFER_HEIGHT - 2, 1), cell(b'i', green()));
    assert_eq!(w.char_at(BUFFER_HEIGHT - 2, 2), blank(green()));
    assert_eq!(w.char_at(BUFFER_HEIGHT - 1, 0), cell(b'!', green()));
    assert_eq!(w.char_at(BUFFER_HEIGHT - 1, 1), blank(green()));
    assert_eq!(w.column_position(), 1);
}

#[test]
fn full_row_then_one_byte_scrolls_once() {
    let mut w = Writer::new(green());
    w.write_str("top");
    w.write_byte(b'\n');
    for i in 0..BUFFER_WIDTH {
        w.write_byte(b'a' + (i % 26) as u8);
    }
    assert_eq!(w.column_position(), BUFFER_WIDTH);
    // nothing has scrolled yet: "top" is still one row above the last
    assert_eq!(w.char_at(BUFFER_HEIGHT - 2, 0), cell(b't', green()));
    w.write_byte(b'Z');
    assert_eq!(w.column_position(), 1);
    assert_eq!(w.char_at(BUFFER_HEIGHT - 3, 0), cell(b't', green()));
    assert_eq!(w.char_at(BUFFER_HEIGHT - 3, 2), cell(b'p', green()));
    for i in 0..BUFFER_WIDTH {
        assert_eq!(w.char_at(BUFFER_HEIGHT - 2, i), cell(b'a' + (i % 26) as u8, green()));
    }
    assert_eq!(w.char_at(BUFFER_HEIGHT - 1, 0), cell(b'Z', green()));
    for i in 1..BUFFER_WIDTH {
        assert_eq!(w.char_at(BUFFER_HEIGHT - 1, i), blank(green()));
    }
}

#[test]
fn newline_scrolls_once_anywhere() {
    let mut w = Writer::new(green());
    w.write_str("x");
    w.write_byte(b'\n');
    assert_eq!(w.column_position(), 0);
    assert_eq!(w.char_at(BUFFER_HEIGHT - 2, 0), cell(b'x', green()));
    w.write_byte(b'\n');
    assert_eq!(w.char_at(BUFFER_HEIGHT - 3, 0), cell(b'x', green()));
    assert_eq!(w.char_at(BUFFER_HEIGHT - 2, 0), blank(green()));
}

#[test]
fn new_line_shifts_every_row() {
    let mut w = Writer::new(green());
    w.write_str("first\nsecond");
    w.new_line();
    assert_eq!(w.char_at(BUFFER_HEIGHT - 3, 0), cell(b'f', green()));
    assert_eq!(w.char_at(BUFFER_HEIGHT - 2, 0), cell(b's', green()));
    assert_eq!(w.char_at(BUFFER_HEIGHT - 1, 0), blank(green()));
    assert_eq!(w.column_position(), 0);
}

#[test]
fn clear_screen_blanks_every_cell() {
    let mut w = Writer::new(ColorCode::new(Color::White, Color::Blue));
    for _ in 0..BUFFER_HEIGHT {
        w.write_str("some text that fills part of a row\n");
    }
    w.write_str("tail");
    w.clear_screen();
    assert_eq!(w.column_position(), 0);
    let color = ColorCode::new(Color::White, Color::Blue);
    for row in 0..BUFFER_HEIGHT {
        for col in 0..BUFFER_WIDTH {
            assert_eq!(w.char_at(row, col), blank(color));
        }
    }
}

#[test]
fn non_ascii_bytes_are_written_raw() {
    let mut w = Writer::new(green());
    w.write_str("é");
    assert_eq!(w.char_at(BUFFER_HEIGHT - 1, 0), cell(0xc3, green()));
    assert_eq!(w.char_at(BUFFER_HEIGHT - 1, 1), cell(0xa9, green()));
    assert_eq!(w.column_position(), 2);
}
