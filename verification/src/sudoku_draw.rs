//! Drawing the sudoku board: the lattice, the digits and the whole grid.
use vstd::prelude::*;
use crate::gpu::{Color, DIRECTION, Framebuffer, draw_font, draw_line, font_spec, line_spec, channel, col_of, row_of};
use crate::sudoku::{Sudoku, cell};

verus! {

/// Side of a cell of the board, in pixels.
pub const CELL_SIZE: u32 = 75;

/// The grey of the player's digits.
pub open spec fn gray() -> Color {
    Color { red: 128, green: 128, blue: 128 }
}

/// The black of the puzzle's digits.
pub open spec fn black() -> Color {
    Color { red: 0, green: 0, blue: 0 }
}

/// The light cyan of an empty cell.
pub open spec fn light_cyan() -> Color {
    Color { red: 224, green: 255, blue: 255 }
}

/// Line `k` of the lattice: first the ten vertical lines from left to
/// right, then the ten horizontal ones from top to bottom; every third one
/// thick, in `color0`, the others thin, in `color1`.
pub open spec fn lattice_line(v: Seq<u8>, width: int, height: int, k: int, color0: Color, color1: Color) -> Seq<u8> {
    let j = if k < 10 { k } else { k - 10 };
    let c = if j % 3 == 0 { color0 } else { color1 };
    let lw = if j % 3 == 0 { 4 } else { 1 };
    if k < 10 {
        line_spec(v, width, height, DIRECTION::Vertical, j * 75, 0, 675, c, 255, lw)
    } else {
        line_spec(v, width, height, DIRECTION::Horizontal, 0, j * 75, 675, c, 255, lw)
    }
}

/// The bytes `v` after the first `k` lines of the lattice.
pub open spec fn lattice_spec(v: Seq<u8>, width: int, height: int, k: int, color0: Color, color1: Color) -> Seq<u8>
    decreases k,
{
    if k <= 0 {
        v
    } else {
        lattice_line(lattice_spec(v, width, height, k - 1, color0, color1), width, height, k - 1, color0, color1)
    }
}

/// Thickness of line `j` of the lattice, counted from 0 along either axis.
spec fn lattice_width(j: int) -> int {
    if j % 3 == 0 { 4 } else { 1 }
}

/// Colour of line `j` of the lattice, counted from 0 along either axis.
spec fn lattice_color(j: int, color0: Color, color1: Color) -> Color {
    if j % 3 == 0 { color0 } else { color1 }
}

/// Line `t` of the lattice covers byte `i`.
spec fn lattice_covers(width: int, t: int, i: int) -> bool {
    let (x, y) = (col_of(i, width), row_of(i, width));
    if t < 10 {
        75 * t <= x < 75 * t + lattice_width(t) && 0 <= y < 675
    } else {
        0 <= x < 675 && 75 * (t - 10) <= y < 75 * (t - 10) + lattice_width(t - 10)
    }
}

proof fn lemma_lattice_line(u: Seq<u8>, width: int, height: int, t: int, color0: Color, color1: Color, i: int)
    requires
        width >= 750,
        height >= 750,
        0 <= t < 20,
        0 <= i < u.len(),
    ensures
        lattice_line(u, width, height, t, color0, color1).len() == u.len(),
        lattice_line(u, width, height, t, color0, color1)[i] == if lattice_covers(width, t, i) {
            channel(lattice_color(if t < 10 { t } else { t - 10 }, color0, color1), 255, i % 4)
        } else {
            u[i]
        },
{
}

proof fn lemma_lattice_len(v: Seq<u8>, width: int, height: int, k: int, color0: Color, color1: Color)
    requires
        width >= 750,
        height >= 750,
        0 <= k <= 20,
    ensures
        lattice_spec(v, width, height, k, color0, color1).len() == v.len(),
    decreases k,
{
    if k > 0 {
        lemma_lattice_len(v, width, height, k - 1, color0, color1);
    }
}

/// Lines `k1` to `k2 - 1` that do not cover byte `i` leave it as it was.
proof fn lemma_lattice_after(v: Seq<u8>, width: int, height: int, k1: int, k2: int, color0: Color, color1: Color, i: int)
    requires
        width >= 750,
        height >= 750,
        0 <= k1 <= k2 <= 20,
        0 <= i < v.len(),
        forall|t: int| k1 <= t < k2 ==> !#[trigger] lattice_covers(width, t, i),
    ensures
        lattice_spec(v, width, height, k2, color0, color1)[i] == lattice_spec(v, width, height, k1, color0, color1)[i],
    decreases k2,
{
    if k2 > k1 {
        lemma_lattice_after(v, width, height, k1, k2 - 1, color0, color1, i);
        lemma_lattice_len(v, width, height, k2 - 1, color0, color1);
        lemma_lattice_line(lattice_spec(v, width, height, k2 - 1, color0, color1), width, height, k2 - 1, color0, color1, i);
    }
}

/// What the lattice looks like on a screen at least 750 pixels each way,
/// pixel by pixel, for the pixel `(x, y)` of byte `i`: the ten horizontal
/// lines run along `x` from 0 to 674 at `y = 75 * k` for `k` in `0..10`,
/// the ten vertical ones along `y` from 0 to 674 at `x = 75 * j`; line
/// `j` is 4 pixels thick and in `color0` when `j` is a multiple of 3, else
/// 1 pixel thick and in `color1`.  The horizontal lines are drawn over the
/// vertical ones, and every other pixel keeps its bytes.
pub proof fn lemma_lattice_pixels(v: Seq<u8>, width: int, height: int, color0: Color, color1: Color)
    requires
        width >= 750,
        height >= 750,
    ensures
        lattice_spec(v, width, height, 20, color0, color1).len() == v.len(),
        forall|i: int| 0 <= i < v.len() ==> {
            let (x, y) = (col_of(i, width), row_of(i, width));
            let r = #[trigger] lattice_spec(v, width, height, 20, color0, color1)[i];
            let (k, j) = (y / 75, x / 75);
            let hline = y < 750 && y % 75 < (if k % 3 == 0 { 4int } else { 1int }) && x < 675;
            let vline = x < 750 && x % 75 < (if j % 3 == 0 { 4int } else { 1int }) && y < 675;
            &&& hline ==> r == channel(if k % 3 == 0 { color0 } else { color1 }, 255, i % 4)
            &&& !hline && vline ==> r == channel(if j % 3 == 0 { color0 } else { color1 }, 255, i % 4)
            &&& !hline && !vline ==> r == v[i]
        },
{
    lemma_lattice_len(v, width, height, 20, color0, color1);
    assert forall|i: int| 0 <= i < v.len() implies {
            let (x, y) = (col_of(i, width), row_of(i, width));
            let r = #[trigger] lattice_spec(v, width, height, 20, color0, color1)[i];
            let (k, j) = (y / 75, x / 75);
            let hline = y < 750 && y % 75 < (if k % 3 == 0 { 4int } else { 1int }) && x < 675;
            let vline = x < 750 && x % 75 < (if j % 3 == 0 { 4int } else { 1int }) && y < 675;
            &&& hline ==> r == channel(if k % 3 == 0 { color0 } else { color1 }, 255, i % 4)
            &&& !hline && vline ==> r == channel(if j % 3 == 0 { color0 } else { color1 }, 255, i % 4)
            &&& !hline && !vline ==> r == v[i]
        } by {
        let (x, y) = (col_of(i, width), row_of(i, width));
        let (k, j) = (y / 75, x / 75);
        assert(x >= 0 && y >= 0) by {
            vstd::arithmetic::div_mod::lemma_div_pos_is_pos(i, 4);
            vstd::arithmetic::div_mod::lemma_mod_pos_bound(i / 4, width);
            vstd::arithmetic::div_mod::lemma_div_pos_is_pos(i / 4, width);
        }
        let hline = y < 750 && y % 75 < lattice_width(k) && x < 675;
        let vline = x < 750 && x % 75 < lattice_width(j) && y < 675;
        // Which lines cover the byte: exactly those the pixel's position says.
        assert forall|t: int| 0 <= t < 20 implies (#[trigger] lattice_covers(width, t, i) <==> (
            if t < 10 { vline && j == t } else { hline && k == t - 10 })) by {
            if t < 10 {
                if 75 * t <= x < 75 * t + lattice_width(t) {
                    assert(x / 75 == t && x % 75 == x - 75 * t) by {
                        vstd::arithmetic::div_mod::lemma_fundamental_div_mod_converse(x, 75, t, x - 75 * t);
                    }
                }
                if vline && j == t {
                    vstd::arithmetic::div_mod::lemma_fundamental_div_mod(x, 75);
                }
            } else {
                let kk = t - 10;
                if 75 * kk <= y < 75 * kk + lattice_width(kk) {
                    assert(y / 75 == kk && y % 75 == y - 75 * kk) by {
                        vstd::arithmetic::div_mod::lemma_fundamental_div_mod_converse(y, 75, kk, y - 75 * kk);
                    }
                }
                if hline && k == kk {
                    vstd::arithmetic::div_mod::lemma_fundamental_div_mod(y, 75);
                }
            }
        }
        let t = if hline { 10 + k } else { j };
        if hline || vline {
            if hline {
                vstd::arithmetic::div_mod::lemma_fundamental_div_mod(y, 75);
            } else {
                vstd::arithmetic::div_mod::lemma_fundamental_div_mod(x, 75);
            }
            assert(0 <= t < 20);
            assert(lattice_covers(width, t, i));
            lemma_lattice_len(v, width, height, t, color0, color1);
            lemma_lattice_line(lattice_spec(v, width, height, t, color0, color1), width, height, t, color0, color1, i);
            assert forall|t2: int| t + 1 <= t2 < 20 implies !#[trigger] lattice_covers(width, t2, i) by {
                assert(lattice_covers(width, t2, i) <==> (if t2 < 10 { vline && j == t2 } else { hline && k == t2 - 10 }));
            }
            lemma_lattice_len(v, width, height, t + 1, color0, color1);
            lemma_lattice_after(v, width, height, t + 1, 20, color0, color1, i);
        } else {
            assert forall|t2: int| 0 <= t2 < 20 implies !#[trigger] lattice_covers(width, t2, i) by {
                assert(lattice_covers(width, t2, i) <==> (if t2 < 10 { vline && j == t2 } else { hline && k == t2 - 10 }));
            }
            lemma_lattice_after(v, width, height, 0, 20, color0, color1, i);
        }
    }
}

/// Draws the lattice of the board when the screen is at least 750 pixels
/// each way and gives 1; gives 0 and draws nothing otherwise.
pub fn draw_sudoku_lattices(fb: &mut Framebuffer, color0: Color, color1: Color) -> (r: u8)
    requires
        old(fb).wf(),
    ensures
        final(fb).wf(),
        final(fb).width == old(fb).width,
        final(fb).height == old(fb).height,
        r == if old(fb).width >= 750 && old(fb).height >= 750 { 1u8 } else { 0u8 },
        final(fb).data@ == if r == 1 {
            lattice_spec(old(fb).data@, old(fb).width as int, old(fb).height as int, 20, color0, color1)
        } else {
            old(fb).data@
        },
{
    if !(fb.width >= 750 && fb.height >= 750) {
        return 0;
    }
    let ghost v0 = fb.data@;
    let ghost (w, h) = (fb.width as int, fb.height as int);
    let mut x: u32 = 0;
    while x < 10
        invariant
            fb.wf(),
            fb.width == w,
            fb.height == h,
            w >= 750,
            h >= 750,
            x <= 10,
            fb.data@ == lattice_spec(v0, w, h, x as int, color0, color1),
        decreases 10 - x,
    {
        if x % 3 == 0 {
            draw_line(fb, DIRECTION::Vertical, x * 75, 0, 675, color0, 255, 4);
        } else {
            draw_line(fb, DIRECTION::Vertical, x * 75, 0, 675, color1, 255, 1);
        }
        x = x + 1;
    }
    let mut y: u32 = 0;
    while y < 10
        invariant
            fb.wf(),
            fb.width == w,
            fb.height == h,
            w >= 750,
            h >= 750,
            y <= 10,
            fb.data@ == lattice_spec(v0, w, h, 10 + y, color0, color1),
        decreases 10 - y,
    {
        if y % 3 == 0 {
            draw_line(fb, DIRECTION::Horizontal, 0, y * 75, 675, color0, 255, 4);
        } else {
            draw_line(fb, DIRECTION::Horizontal, 0, y * 75, 675, color1, 255, 1);
        }
        y = y + 1;
    }
    1
}

/// The bytes `v` after digit `number` was shown in cell `(pos_x, pos_y)`:
/// a blank in light cyan for 0, else the digit's glyph in `color`, four
/// times the font size, 20 pixels from the cell's left and 6 from its top.
pub open spec fn number_spec(
    v: Seq<u8>,
    width: int,
    height: int,
    glyphs: Seq<u128>,
    pos_x: int,
    pos_y: int,
    number: int,
    color: Color,
) -> Seq<u8> {
    if pos_x <= 8 && pos_y <= 8 {
        let (sx, sy) = (75 * pos_x + 20, 75 * pos_y + 6);
        if number == 0 {
            font_spec(v, width, height, sx, sy, light_cyan(), 255, glyphs[32], 4)
        } else {
            font_spec(v, width, height, sx, sy, color, 255, glyphs[number + 48], 4)
        }
    } else {
        v
    }
}

/// Shows digit `number` in cell `(pos_x, pos_y)` and gives 0; gives 1 and
/// shows nothing for a cell off the board.
pub fn show_sudoku_number(fb: &mut Framebuffer, glyphs: &[u128], pos_x: u8, pos_y: u8, number: u8, color: Color) -> (r: u8)
    requires
        old(fb).wf(),
        glyphs@.len() == 127,
        pos_x <= 8 && pos_y <= 8 ==> number < 79,
    ensures
        final(fb).wf(),
        final(fb).width == old(fb).width,
        final(fb).height == old(fb).height,
        r == if pos_x <= 8 && pos_y <= 8 { 0u8 } else { 1u8 },
        final(fb).data@ == number_spec(
            old(fb).data@,
            old(fb).width as int,
            old(fb).height as int,
            glyphs@,
            pos_x as int,
            pos_y as int,
            number as int,
            color,
        ),
{
    if pos_x <= 8 && pos_y <= 8 {
        let start_x: u32 = 75 * pos_x as u32 + 20;
        let start_y: u32 = 75 * pos_y as u32 + 6;
        if number == 0 {
            draw_font(fb, start_x, start_y, Color { red: 224, green: 255, blue: 255 }, 255, glyphs[32], 4);
        } else {
            draw_font(fb, start_x, start_y, color, 255, glyphs[(number + 48) as usize], 4);
        }
        0
    } else {
        1
    }
}

/// The bytes `v` after the first `k` cells of the game, in row-major order,
/// were shown: cell `(i, j)` at position `(i, j)`, grey for the player's
/// digits, black for the puzzle's.
pub open spec fn grid_spec(v: Seq<u8>, width: int, height: int, glyphs: Seq<u128>, s: Sudoku, k: int) -> Seq<u8>
    decreases k,
{
    if k <= 0 {
        v
    } else {
        let (i, j) = ((k - 1) / 9, (k - 1) % 9);
        let color = if cell(s.tag, i, j) == 0 { gray() } else { black() };
        number_spec(grid_spec(v, width, height, glyphs, s, k - 1), width, height, glyphs, i, j, cell(s.map, i, j) as u8 as int, color)
    }
}

/// Byte `p` belongs to the box in which cell `(a, b)` is shown.
spec fn in_box(width: int, a: int, b: int, p: int) -> bool {
    75 * a + 20 <= col_of(p, width) < 75 * a + 52 && 75 * b + 6 <= row_of(p, width) < 75 * b + 70
}

proof fn lemma_number_pixel(
    u: Seq<u8>,
    v: Seq<u8>,
    width: int,
    height: int,
    glyphs: Seq<u128>,
    a: int,
    b: int,
    n: int,
    c: Color,
    p: int,
)
    requires
        0 <= a <= 8,
        0 <= b <= 8,
        u.len() == v.len(),
        0 <= p < u.len(),
    ensures
        number_spec(u, width, height, glyphs, a, b, n, c).len() == u.len(),
        !in_box(width, a, b, p) ==> number_spec(u, width, height, glyphs, a, b, n, c)[p] == u[p],
        in_box(width, a, b, p) && u[p] == v[p] ==> number_spec(u, width, height, glyphs, a, b, n, c)[p] == (if n == 0 {
            font_spec(v, width, height, 75 * a + 20, 75 * b + 6, light_cyan(), 255, glyphs[32], 4)[p]
        } else {
            font_spec(v, width, height, 75 * a + 20, 75 * b + 6, c, 255, glyphs[n + 48], 4)[p]
        }),
{
}

proof fn lemma_grid_len(v: Seq<u8>, width: int, height: int, glyphs: Seq<u128>, s: Sudoku, k: int)
    requires
        0 <= k <= 81,
    ensures
        grid_spec(v, width, height, glyphs, s, k).len() == v.len(),
    decreases k,
{
    if k > 0 {
        lemma_grid_len(v, width, height, glyphs, s, k - 1);
        let (i, j) = ((k - 1) / 9, (k - 1) % 9);
        let color = if cell(s.tag, i, j) == 0 { gray() } else { black() };
        let u = grid_spec(v, width, height, glyphs, s, k - 1);
        if u.len() > 0 {
            lemma_number_pixel(u, u, width, height, glyphs, i, j, cell(s.map, i, j) as u8 as int, color, 0);
        } else {
            assert(number_spec(u, width, height, glyphs, i, j, cell(s.map, i, j) as u8 as int, color).len() == 0);
        }
    }
}

/// Cells `k1` to `k2 - 1` whose boxes do not hold byte `p` leave it as it
/// was.
proof fn lemma_grid_after(v: Seq<u8>, width: int, height: int, glyphs: Seq<u128>, s: Sudoku, k1: int, k2: int, p: int)
    requires
        0 <= k1 <= k2 <= 81,
        0 <= p < v.len(),
        forall|q: int| k1 <= q < k2 ==> !#[trigger] in_box(width, q / 9, q % 9, p),
    ensures
        grid_spec(v, width, height, glyphs, s, k2)[p] == grid_spec(v, width, height, glyphs, s, k1)[p],
    decreases k2,
{
    if k2 > k1 {
        lemma_grid_after(v, width, height, glyphs, s, k1, k2 - 1, p);
        lemma_grid_len(v, width, height, glyphs, s, k2 - 1);
        let (i, j) = ((k2 - 1) / 9, (k2 - 1) % 9);
        let color = if cell(s.tag, i, j) == 0 { gray() } else { black() };
        let u = grid_spec(v, width, height, glyphs, s, k2 - 1);
        lemma_number_pixel(u, u, width, height, glyphs, i, j, cell(s.map, i, j) as u8 as int, color, p);
    }
}

/// What printing the game shows, pixel by pixel, for the pixel `(x, y)` of
/// byte `p`: the digit `map[a][b]` of cell `(a, b)` is drawn in the box of
/// 32 by 64 pixels whose top left corner is `(75 * a + 20, 75 * b + 6)`,
/// as `draw_font` draws it four times the font size, grey when
/// `tag[a][b]` is 0, black otherwise, and a blank in light cyan for an
/// empty cell; every pixel outside these boxes keeps its bytes.
pub proof fn lemma_grid_pixels(v: Seq<u8>, width: int, height: int, glyphs: Seq<u128>, s: Sudoku)
    ensures
        grid_spec(v, width, height, glyphs, s, 81).len() == v.len(),
        forall|p: int| 0 <= p < v.len() ==> {
            let (x, y) = (col_of(p, width), row_of(p, width));
            let (a, b) = (x / 75, y / 75);
            let r = #[trigger] grid_spec(v, width, height, glyphs, s, 81)[p];
            let inbox = 0 <= a < 9 && 0 <= b < 9 && 75 * a + 20 <= x < 75 * a + 52 && 75 * b + 6 <= y < 75 * b + 70;
            let n = cell(s.map, a, b) as u8 as int;
            let c = if cell(s.tag, a, b) == 0 { gray() } else { black() };
            &&& inbox ==> r == (if n == 0 {
                font_spec(v, width, height, 75 * a + 20, 75 * b + 6, light_cyan(), 255, glyphs[32], 4)[p]
            } else {
                font_spec(v, width, height, 75 * a + 20, 75 * b + 6, c, 255, glyphs[n + 48], 4)[p]
            })
            &&& !inbox ==> r == v[p]
        },
{
    lemma_grid_len(v, width, height, glyphs, s, 81);
    assert forall|p: int| 0 <= p < v.len() implies {
            let (x, y) = (col_of(p, width), row_of(p, width));
            let (a, b) = (x / 75, y / 75);
            let r = #[trigger] grid_spec(v, width, height, glyphs, s, 81)[p];
            let inbox = 0 <= a < 9 && 0 <= b < 9 && 75 * a + 20 <= x < 75 * a + 52 && 75 * b + 6 <= y < 75 * b + 70;
            let n = cell(s.map, a, b) as u8 as int;
            let c = if cell(s.tag, a, b) == 0 { gray() } else { black() };
            &&& inbox ==> r == (if n == 0 {
                font_spec(v, width, height, 75 * a + 20, 75 * b + 6, light_cyan(), 255, glyphs[32], 4)[p]
            } else {
                font_spec(v, width, height, 75 * a + 20, 75 * b + 6, c, 255, glyphs[n + 48], 4)[p]
            })
            &&& !inbox ==> r == v[p]
        } by {
        let (x, y) = (col_of(p, width), row_of(p, width));
        let (a, b) = (x / 75, y / 75);
        let inbox = 0 <= a < 9 && 0 <= b < 9 && 75 * a + 20 <= x < 75 * a + 52 && 75 * b + 6 <= y < 75 * b + 70;
        // The box that holds the byte is the one its position names.
        assert forall|q: int| 0 <= q < 81 implies (#[trigger] in_box(width, q / 9, q % 9, p) <==> (inbox && q == 9 * a + b)) by {
            let (qa, qb) = (q / 9, q % 9);
            if in_box(width, qa, qb, p) {
                vstd::arithmetic::div_mod::lemma_fundamental_div_mod_converse(x, 75, qa, x - 75 * qa);
                vstd::arithmetic::div_mod::lemma_fundamental_div_mod_converse(y, 75, qb, y - 75 * qb);
                vstd::arithmetic::div_mod::lemma_fundamental_div_mod(q, 9);
            }
            if inbox && q == 9 * a + b {
                vstd::arithmetic::div_mod::lemma_fundamental_div_mod_converse(q, 9, a, b);
            }
        }
        if inbox {
            let q = 9 * a + b;
            vstd::arithmetic::div_mod::lemma_fundamental_div_mod_converse(q, 9, a, b);
            assert forall|q2: int| 0 <= q2 < q implies !#[trigger] in_box(width, q2 / 9, q2 % 9, p) by {
                assert(in_box(width, q2 / 9, q2 % 9, p) <==> (inbox && q2 == 9 * a + b));
            }
            lemma_grid_after(v, width, height, glyphs, s, 0, q, p);
            lemma_grid_len(v, width, height, glyphs, s, q);
            let color = if cell(s.tag, a, b) == 0 { gray() } else { black() };
            let u = grid_spec(v, width, height, glyphs, s, q);
            lemma_number_pixel(u, v, width, height, glyphs, a, b, cell(s.map, a, b) as u8 as int, color, p);
            assert forall|q2: int| q + 1 <= q2 < 81 implies !#[trigger] in_box(width, q2 / 9, q2 % 9, p) by {
                assert(in_box(width, q2 / 9, q2 % 9, p) <==> (inbox && q2 == 9 * a + b));
            }
            lemma_grid_len(v, width, height, glyphs, s, q + 1);
            lemma_grid_after(v, width, height, glyphs, s, q + 1, 81, p);
        } else {
            assert forall|q2: int| 0 <= q2 < 81 implies !#[trigger] in_box(width, q2 / 9, q2 % 9, p) by {
                assert(in_box(width, q2 / 9, q2 % 9, p) <==> (inbox && q2 == 9 * a + b));
            }
            lemma_grid_after(v, width, height, glyphs, s, 0, 81, p);
        }
    }
}

impl Sudoku {
    /// Shows every cell of the game.
    pub fn map_print(&self, fb: &mut Framebuffer, glyphs: &[u128])
        requires
            old(fb).wf(),
            glyphs@.len() == 127,
            forall|i: int, j: int| 0 <= i < 9 && 0 <= j < 9 ==> (#[trigger] cell(self.map, i, j) as u8) < 79,
        ensures
            final(fb).wf(),
            final(fb).width == old(fb).width,
            final(fb).height == old(fb).height,
            final(fb).data@ == grid_spec(old(fb).data@, old(fb).width as int, old(fb).height as int, glyphs@, *self, 81),
    {
        let ghost v0 = fb.data@;
        let ghost (w, h) = (fb.width as int, fb.height as int);
        let mut i: usize = 0;
        while i < 9
            invariant
                fb.wf(),
                fb.width == w,
                fb.height == h,
                glyphs@.len() == 127,
                forall|a: int, b: int| 0 <= a < 9 && 0 <= b < 9 ==> (#[trigger] cell(self.map, a, b) as u8) < 79,
                i <= 9,
                fb.data@ == grid_spec(v0, w, h, glyphs@, *self, 9 * i),
            decreases 9 - i,
        {
            let mut j: usize = 0;
            while j < 9
                invariant
                    fb.wf(),
                    fb.width == w,
                    fb.height == h,
                    glyphs@.len() == 127,
                    forall|a: int, b: int| 0 <= a < 9 && 0 <= b < 9 ==> (#[trigger] cell(self.map, a, b) as u8) < 79,
                    i < 9,
                    j <= 9,
                    fb.data@ == grid_spec(v0, w, h, glyphs@, *self, 9 * i + j),
                decreases 9 - j,
            {
                proof {
                    assert((9 * i + j) / 9 == i && (9 * i + j) % 9 == j);
                    assert((cell(self.map, i as int, j as int) as u8) < 79);
                }
                if self.tag[i][j] == 0 {
                    show_sudoku_number(fb, glyphs, i as u8, j as u8, self.map[i][j] as u8, Color { red: 128, green: 128, blue: 128 });
                } else {
                    show_sudoku_number(fb, glyphs, i as u8, j as u8, self.map[i][j] as u8, Color { red: 0, green: 0, blue: 0 });
                }
                j = j + 1;
            }
            i = i + 1;
        }
    }
}

} // verus!
