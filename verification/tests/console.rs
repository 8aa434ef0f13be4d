use wasmos::vga::{palette_color, set_pixel, Color, FbOp, VgaBuffer};

#[test]
fn characters_become_glyphs_and_wrap() {
    let mut v = VgaBuffer::new(16, 16);
    assert_eq!(v.cols(), 2);
    assert_eq!(v.rows(), 2);
    v.write_char('A');
    v.write_char('B');
    v.write_char('C');
    let ops = v.take_ops();
    let white = Color(255, 255, 255);
    let black = Color(0, 0, 0);
    assert_eq!(
        ops,
        vec![
            FbOp::Glyph { row: 0, col: 0, ch: 'A', fg: white, bg: black },
            FbOp::Glyph { row: 0, col: 1, ch: 'B', fg: white, bg: black },
            FbOp::Glyph { row: 1, col: 0, ch: 'C', fg: white, bg: black },
        ]
    );
    v.write_char('\n');
    assert_eq!(v.take_ops(), vec![FbOp::ScrollUp]);
    assert_eq!(v.take_ops(), vec![]);
}

#[test]
fn ansi_colors_apply_to_later_glyphs() {
    let mut v = VgaBuffer::new(640, 480);
    let text: Vec<char> = "\x1b[31mx\x1b[0my".chars().collect();
    v.parse_ansi(&text);
    let ops = v.take_ops();
    assert_eq!(ops.len(), 2);
    assert_eq!(ops[0], FbOp::Glyph { row: 0, col: 0, ch: 'x', fg: Color(170, 0, 0), bg: Color(0, 0, 0) });
    assert_eq!(ops[1], FbOp::Glyph { row: 0, col: 1, ch: 'y', fg: Color(255, 255, 255), bg: Color(0, 0, 0) });
    assert_eq!(palette_color(12), Color(85, 85, 255));
}

#[test]
fn backspace_erases_and_negative_pixels_are_dropped() {
    let mut v = VgaBuffer::new(640, 480);
    v.write_char('a');
    v.write_char('\x08');
    let ops = v.take_ops();
    assert_eq!(ops[1], FbOp::EraseCell { row: 0, col: 0 });
    set_pixel(&mut v, 3, 4, 0x00FF8000);
    set_pixel(&mut v, -1, 4, 0x00FF8000);
    set_pixel(&mut v, 5000, 4, 0x00FF8000);
    set_pixel(&mut v, 640, 0, 0x00FF8000);
    set_pixel(&mut v, 0, 480, 0x00FF8000);
    set_pixel(&mut v, 639, 479, 0x00FF8000);
    assert_eq!(
        v.take_ops(),
        vec![
            FbOp::Pixel { x: 3, y: 4, color: Color(0xFF, 0x80, 0x00) },
            FbOp::Pixel { x: 639, y: 479, color: Color(0xFF, 0x80, 0x00) },
        ]
    );
}
