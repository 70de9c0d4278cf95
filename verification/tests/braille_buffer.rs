//! Tests of the pixel buffer.

use mapscii::braille_buffer::{rgb_to_xterm, xterm_color, BrailleBuffer, CellContent};

#[test]
fn test_buffer_dimensions() {
    let buf = BrailleBuffer::new(80, 40);
    assert_eq!(buf.cols(), 40);
    assert_eq!(buf.rows(), 10);
    assert_eq!(buf.cell_count(), 400);
}

#[test]
fn test_set_pixel_and_locate() {
    let mut buf = BrailleBuffer::new(4, 8);
    buf.set_pixel(0, 0, 1);
    assert_eq!(buf.pixel_buffer[0], 0x01);
    buf.set_pixel(1, 0, 1);
    assert_eq!(buf.pixel_buffer[0], 0x01 | 0x08);
    buf.set_pixel(0, 3, 1);
    assert_eq!(buf.pixel_buffer[0], 0x01 | 0x08 | 0x40);
}

#[test]
fn test_unset_pixel() {
    let mut buf = BrailleBuffer::new(4, 4);
    buf.set_pixel(0, 0, 1);
    buf.set_pixel(1, 0, 1);
    buf.unset_pixel(0, 0);
    assert_eq!(buf.pixel_buffer[0], 0x08);
}

#[test]
fn test_out_of_bounds() {
    let mut buf = BrailleBuffer::new(4, 4);
    buf.set_pixel(-1, 0, 1);
    buf.set_pixel(0, -1, 1);
    buf.set_pixel(100, 0, 1);
    buf.set_pixel(0, 100, 1);
    assert_eq!(buf.pixel_buffer[0], 0);
}

#[test]
fn test_rgb_to_xterm_black() {
    assert_eq!(rgb_to_xterm(0, 0, 0), 0);
}

#[test]
fn test_rgb_to_xterm_white() {
    assert_eq!(rgb_to_xterm(255, 255, 255), 15);
}

#[test]
fn test_ascii_map_built() {
    let buf = BrailleBuffer::new(4, 4);
    assert_eq!(buf.ascii_to_braille.len(), 256);
    assert_eq!(buf.ascii_to_braille[0], ' ');
    assert_eq!(buf.ascii_to_braille[255], '\u{2588}');
}

#[test]
fn palette_entries_are_their_own_closest_color() {
    for idx in [1u8, 9, 16, 69, 100, 231, 232, 244, 255] {
        let [r, g, b] = xterm_color(idx);
        let found = rgb_to_xterm(r, g, b);
        assert_eq!(xterm_color(found), [r, g, b]);
    }
    assert_eq!(rgb_to_xterm(0x5f, 0x87, 0xff), 69);
}

#[test]
fn palette_cube_and_grays() {
    assert_eq!(xterm_color(16), [0, 0, 0]);
    assert_eq!(xterm_color(17), [0, 0, 95]);
    assert_eq!(xterm_color(231), [255, 255, 255]);
    assert_eq!(xterm_color(232), [8, 8, 8]);
    assert_eq!(xterm_color(255), [238, 238, 238]);
    assert_eq!(xterm_color(7), [192, 192, 192]);
}

#[test]
fn counts_follow_what_is_drawn() {
    let mut buf = BrailleBuffer::new(8, 8);
    assert_eq!(buf.pixel_count(), 0);
    buf.set_pixel(0, 0, 3);
    buf.set_pixel(1, 1, 3);
    buf.set_pixel(6, 7, 4);
    assert_eq!(buf.pixel_count(), 2);
    assert_eq!(buf.foreground_count(), 2);
    assert_eq!(buf.char_count(), 0);
    buf.write_text("ab", 2, 0, 5, false);
    assert_eq!(buf.char_count(), 2);
    buf.clear();
    assert_eq!(buf.pixel_count(), 0);
    assert_eq!(buf.char_count(), 0);
}

#[test]
fn pixel_colors_are_read_back() {
    let mut buf = BrailleBuffer::new(4, 4);
    assert_eq!(buf.get_pixel_color(0, 0), 0);
    buf.set_pixel(0, 0, 7);
    assert_eq!(buf.get_pixel_color(0, 0), 7);
    assert_eq!(buf.get_pixel_color(1, 0), 0);
    assert_eq!(buf.get_pixel_color(-1, 0), 0);
    buf.unset_pixel(0, 0);
    assert_eq!(buf.get_pixel_color(0, 0), 0);
}

#[test]
fn text_is_centered_on_request() {
    let mut buf = BrailleBuffer::new(40, 4);
    buf.write_text("abcd", 20, 0, 1, true);
    // Four characters of two pixels: the text starts four pixels to the left.
    assert_eq!(buf.char_buffer[8].as_deref(), Some("a"));
    assert_eq!(buf.char_buffer[11].as_deref(), Some("d"));
    assert!(buf.char_buffer[12].is_none());
}

#[test]
fn long_texts_are_centered() {
    let mut buf = BrailleBuffer::new(80, 4);
    buf.write_text("abcdefghij", 40, 0, 1, true);
    assert!(buf.char_buffer[14].is_none());
    assert_eq!(buf.char_buffer[15].as_deref(), Some("a"));
    assert_eq!(buf.char_buffer[24].as_deref(), Some("j"));
    assert!(buf.char_buffer[25].is_none());
}

#[test]
fn characters_count_for_centering_not_bytes() {
    let mut buf = BrailleBuffer::new(40, 4);
    buf.write_text("äöüß", 20, 0, 1, true);
    assert_eq!(buf.char_buffer[8].as_deref(), Some("ä"));
    assert_eq!(buf.char_buffer[11].as_deref(), Some("ß"));
}

#[test]
fn cells_are_drawn_as_braille() {
    let mut buf = BrailleBuffer::new(4, 4);
    buf.set_pixel(0, 0, 2);
    let cells = buf.render_cells(2, 1, true);
    assert_eq!(cells.len(), 2);
    assert_eq!((cells[0].col, cells[0].row), (0, 0));
    assert!(matches!(cells[0].content, CellContent::Glyph('\u{2801}')));
    assert_eq!(cells[0].fg, Some(2));
}

#[test]
fn wide_characters_cover_the_next_cell() {
    let mut buf = BrailleBuffer::new(8, 4);
    buf.set_char("\u{4e16}", 0, 0, 3);
    let cells = buf.render_cells(4, 1, true);
    match &cells[0].content {
        CellContent::Text(text) => assert_eq!(text, "\u{4e16}"),
        CellContent::Glyph(c) => panic!("a glyph: {c}"),
    }
    // The wide character takes two columns, so column 1 is not drawn.
    assert!(cells.iter().all(|c| c.col != 1));
}
