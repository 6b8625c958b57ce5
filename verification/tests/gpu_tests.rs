use runikraft::cursor::{update_cursor, CursorSave, CURSOR_WORDS};
use runikraft::gpu::{draw_clear, draw_font, draw_line, draw_select, printg, Color, Framebuffer, DIRECTION};
use runikraft::sudoku::sudoku_init_zero;
use runikraft::sudoku_draw::{draw_sudoku_lattices, show_sudoku_number};

fn px(fb: &Framebuffer, x: u32, y: u32) -> [u8; 4] {
    let i = ((y * fb.width + x) * 4) as usize;
    [fb.data[i], fb.data[i + 1], fb.data[i + 2], fb.data[i + 3]]
}

const RED: [u8; 4] = [0, 0, 200, 255];
const CYAN: [u8; 4] = [255, 255, 0, 255];
const BLANK: [u8; 4] = [0, 0, 0, 0];

fn red() -> Color {
    Color::new(200, 0, 0)
}

#[test]
fn a_new_framebuffer_is_blank() {
    let fb = Framebuffer::new(4, 3);
    assert_eq!(fb.data.len(), 48);
    assert!(fb.data.iter().all(|&b| b == 0));
}

#[test]
fn a_line_covers_its_rectangle() {
    let mut fb = Framebuffer::new(8, 6);
    draw_line(&mut fb, DIRECTION::Horizontal, 2, 1, 3, red(), 255, 2);
    for y in 0..6 {
        for x in 0..8 {
            let inside = (2..5).contains(&x) && (1..3).contains(&y);
            assert_eq!(px(&fb, x, y), if inside { RED } else { BLANK }, "pixel {} {}", x, y);
        }
    }
}

#[test]
fn a_line_is_cut_at_the_edge() {
    let mut fb = Framebuffer::new(8, 6);
    draw_line(&mut fb, DIRECTION::Vertical, 7, 4, 10, red(), 255, 3);
    assert_eq!(px(&fb, 7, 4), RED);
    assert_eq!(px(&fb, 7, 5), RED);
    assert_eq!(px(&fb, 6, 5), BLANK);
    assert_eq!(px(&fb, 7, 3), BLANK);
}

#[test]
fn clearing_paints_every_pixel() {
    let mut fb = Framebuffer::new(5, 5);
    draw_clear(&mut fb, Color::new(1, 2, 3));
    for y in 0..5 {
        for x in 0..5 {
            assert_eq!(px(&fb, x, y), [3, 2, 1, 255]);
        }
    }
}

#[test]
fn a_character_shows_its_bitmap() {
    let mut fb = Framebuffer::new(20, 40);
    let glyph: u128 = (1u128 << 127) | (1u128 << 118);
    assert_eq!(draw_font(&mut fb, 1, 2, red(), 255, glyph, 2), 0);
    assert_eq!(px(&fb, 1, 2), RED);
    assert_eq!(px(&fb, 2, 3), RED);
    assert_eq!(px(&fb, 3, 2), CYAN);
    assert_eq!(px(&fb, 3, 4), RED);
    assert_eq!(px(&fb, 4, 5), RED);
    assert_eq!(px(&fb, 5, 4), CYAN);
    assert_eq!(px(&fb, 16, 33), CYAN);
    assert_eq!(px(&fb, 17, 33), BLANK);
    assert_eq!(px(&fb, 0, 0), BLANK);
}

#[test]
fn a_character_that_does_not_fit_is_not_drawn() {
    let mut fb = Framebuffer::new(20, 20);
    assert_eq!(draw_font(&mut fb, 13, 0, red(), 255, u128::MAX, 1), 1);
    assert!(fb.data.iter().all(|&b| b == 0));
}

#[test]
fn printing_moves_the_pen() {
    let mut glyphs = vec![0u128; 128];
    glyphs['a' as usize] = u128::MAX;
    let mut fb = Framebuffer::new(24, 40);
    printg(&mut fb, &glyphs, "ab\na", 0, 0, red(), 255, 1);
    assert_eq!(px(&fb, 0, 0), RED);
    assert_eq!(px(&fb, 7, 15), RED);
    assert_eq!(px(&fb, 8, 0), CYAN);
    assert_eq!(px(&fb, 16, 0), BLANK);
    assert_eq!(px(&fb, 0, 16), RED);
    assert_eq!(px(&fb, 8, 16), BLANK);
}

#[test]
fn the_selection_frame_is_drawn_inside_the_cell() {
    let mut fb = Framebuffer::new(80, 80);
    draw_select(&mut fb, 0, 0, red());
    assert_eq!(px(&fb, 5, 5), RED);
    assert_eq!(px(&fb, 69, 5), RED);
    assert_eq!(px(&fb, 5, 70), RED);
    assert_eq!(px(&fb, 70, 69), RED);
    assert_eq!(px(&fb, 4, 4), BLANK);
    assert_eq!(px(&fb, 30, 30), BLANK);
}

#[test]
fn the_cursor_is_drawn_and_taken_away() {
    let mut fb = Framebuffer::new(40, 40);
    draw_clear(&mut fb, Color::new(9, 9, 9));
    let grey = px(&fb, 0, 0);
    let mut save = CursorSave::new();
    assert_eq!(save.buf.len(), CURSOR_WORDS);
    update_cursor(&mut fb, &mut save, 20, 20, true);
    let black = [0, 0, 0, 255];
    assert_eq!(px(&fb, 10, 19), black);
    assert_eq!(px(&fb, 30, 21), black);
    assert_eq!(px(&fb, 19, 10), black);
    assert_eq!(px(&fb, 21, 30), black);
    assert_eq!(px(&fb, 31, 20), grey);
    assert_eq!(px(&fb, 15, 15), grey);
    assert_eq!(save.buf[0], 21 * 3 + 3 * 21);
    update_cursor(&mut fb, &mut save, 5, 5, false);
    assert_eq!(px(&fb, 20, 20), grey);
    assert_eq!(px(&fb, 10, 19), grey);
    assert_eq!(px(&fb, 5, 5), black);
    assert_eq!(px(&fb, 0, 4), black);
    assert_eq!(save.buf[0], 16 * 3 + 3 * 16);
}

#[test]
fn the_board_needs_a_large_screen() {
    let mut fb = Framebuffer::new(100, 100);
    assert_eq!(draw_sudoku_lattices(&mut fb, red(), red()), 0);
    assert!(fb.data.iter().all(|&b| b == 0));
}

#[test]
fn the_board_lattice_is_drawn() {
    let mut fb = Framebuffer::new(750, 750);
    assert_eq!(draw_sudoku_lattices(&mut fb, red(), Color::new(0, 0, 9)), 1);
    assert_eq!(px(&fb, 0, 100), RED);
    assert_eq!(px(&fb, 3, 100), RED);
    assert_eq!(px(&fb, 4, 100), BLANK);
    assert_eq!(px(&fb, 75, 100), [9, 0, 0, 255]);
    assert_eq!(px(&fb, 100, 225), RED);
    assert_eq!(px(&fb, 700, 700), BLANK);
}

#[test]
fn digits_are_shown_in_their_cell() {
    let mut glyphs = vec![0u128; 127];
    glyphs[48 + 7] = u128::MAX;
    let mut fb = Framebuffer::new(750, 750);
    assert_eq!(show_sudoku_number(&mut fb, &glyphs, 1, 2, 7, red()), 0);
    assert_eq!(px(&fb, 75 + 20, 150 + 6), RED);
    assert_eq!(px(&fb, 75 + 20 + 31, 150 + 6 + 63), RED);
    assert_eq!(px(&fb, 75 + 19, 150 + 6), BLANK);
    assert_eq!(show_sudoku_number(&mut fb, &glyphs, 9, 0, 7, red()), 1);
    let s = sudoku_init_zero();
    s.map_print(&mut fb, &glyphs);
    assert_eq!(px(&fb, 20, 6), CYAN);
}
