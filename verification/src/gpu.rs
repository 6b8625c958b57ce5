//! Drawing on a framebuffer of 32-bit pixels.
//!
//! Pixels are stored row after row, four bytes each: blue, green, red and
//! alpha.  Lines are filled rectangles; a character is an 8 by 16 bitmap,
//! scaled up by a whole factor, on a cyan background.
use vstd::prelude::*;

verus! {

/// A colour.
#[derive(Clone, Copy, PartialEq, Eq, Structural)]
pub struct Color {
    pub red: u8,
    pub green: u8,
    pub blue: u8,
}

impl Color {
    /// The colour of the given components.
    pub fn new(red: u8, green: u8, blue: u8) -> (c: Color)
        ensures
            c == (Color { red, green, blue }),
    {
        Color { red, green, blue }
    }
}

/// The background of characters.
pub open spec fn cyan() -> Color {
    Color { red: 0, green: 255, blue: 255 }
}

/// The way a line runs.
#[derive(Clone, Copy, PartialEq, Eq, Structural)]
pub enum DIRECTION {
    Horizontal,
    Vertical,
}

/// A framebuffer: `width * height` pixels, four bytes each.
pub struct Framebuffer {
    pub data: Vec<u8>,
    pub width: u32,
    pub height: u32,
}

impl Framebuffer {
    /// The bytes are exactly the pixels, and byte offsets fit in 32 bits.
    pub open spec fn wf(&self) -> bool {
        &&& self.data@.len() == self.width * self.height * 4
        &&& self.width * self.height * 4 <= u32::MAX
    }

    /// A framebuffer of `width` by `height` pixels, all bytes 0.
    pub fn new(width: u32, height: u32) -> (fb: Framebuffer)
        requires
            width * height * 4 <= u32::MAX,
        ensures
            fb.wf(),
            fb.width == width,
            fb.height == height,
            forall|i: int| 0 <= i < fb.data@.len() ==> fb.data@[i] == 0,
    {
        let n = (width as u64 * height as u64 * 4) as usize;
        let mut data: Vec<u8> = Vec::new();
        let mut k: usize = 0;
        while k < n
            invariant
                k <= n,
                n == width * height * 4,
                data@.len() == k,
                forall|i: int| 0 <= i < k ==> data@[i] == 0,
            decreases n - k,
        {
            data.push(0);
            k = k + 1;
        }
        Framebuffer { data, width, height }
    }
}

/// Byte `k` of a pixel of colour `c` and alpha `alpha`.
pub open spec fn channel(c: Color, alpha: u8, k: int) -> u8 {
    if k == 0 {
        c.blue
    } else if k == 1 {
        c.green
    } else if k == 2 {
        c.red
    } else {
        alpha
    }
}

/// Column of the pixel of byte `i`.
pub open spec fn col_of(i: int, width: int) -> int {
    (i / 4) % width
}

/// Row of the pixel of byte `i`.
pub open spec fn row_of(i: int, width: int) -> int {
    (i / 4) / width
}

/// Byte `i` belongs to a pixel of the rectangle of `w` by `h` pixels whose
/// top left corner is `(x0, y0)`.
pub open spec fn in_rect(i: int, width: int, x0: int, y0: int, w: int, h: int) -> bool {
    &&& x0 <= col_of(i, width) < x0 + w
    &&& y0 <= row_of(i, width) < y0 + h
}

/// The bytes `v` after the rectangle was filled with colour `c`.
pub open spec fn fill_spec(v: Seq<u8>, width: int, x0: int, y0: int, w: int, h: int, c: Color, alpha: u8) -> Seq<u8> {
    Seq::new(v.len(), |i: int| if in_rect(i, width, x0, y0, w, h) { channel(c, alpha, i % 4) } else { v[i] })
}

/// Width and height of the rectangle that a line covers: `length` along
/// its direction and `line_width` across, cut at the edges of the screen.
pub open spec fn line_box(
    dir: DIRECTION,
    width: int,
    height: int,
    start_x: int,
    start_y: int,
    length: int,
    line_width: int,
) -> (int, int) {
    let room_x = width - start_x;
    let room_y = height - start_y;
    match dir {
        DIRECTION::Horizontal => (
            if length < room_x { length } else { room_x },
            if line_width < room_y { line_width } else { room_y },
        ),
        DIRECTION::Vertical => (
            if line_width < room_x { line_width } else { room_x },
            if length < room_y { length } else { room_y },
        ),
    }
}

/// The bytes `v` after a line was drawn.
pub open spec fn line_spec(
    v: Seq<u8>,
    width: int,
    height: int,
    dir: DIRECTION,
    start_x: int,
    start_y: int,
    length: int,
    c: Color,
    alpha: u8,
    line_width: int,
) -> Seq<u8> {
    let (w, h) = line_box(dir, width, height, start_x, start_y, length, line_width);
    fill_spec(v, width, start_x, start_y, w, h, c, alpha)
}

/// Bit `n` of a character bitmap, counted from the most significant bit:
/// row `n / 8`, column `n % 8`.
pub open spec fn glyph_bit(glyph: u128, n: int) -> bool {
    0 <= n < 128 && (glyph >> ((127 - n) as u128)) & 1 == 1
}

/// The bytes `v` after a character was drawn, if its box fits the screen.
pub open spec fn font_spec(
    v: Seq<u8>,
    width: int,
    height: int,
    start_x: int,
    start_y: int,
    c: Color,
    alpha: u8,
    glyph: u128,
    size: int,
) -> Seq<u8> {
    if start_x + 8 * size <= width && start_y + 16 * size <= height {
        Seq::new(
            v.len(),
            |i: int|
                if in_rect(i, width, start_x, start_y, 8 * size, 16 * size) {
                    let n = (row_of(i, width) - start_y) / size * 8 + (col_of(i, width) - start_x) / size;
                    if glyph_bit(glyph, n) {
                        channel(c, alpha, i % 4)
                    } else {
                        channel(cyan(), 255, i % 4)
                    }
                } else {
                    v[i]
                },
        )
    } else {
        v
    }
}

/// The bytes of pixel `(x, y)` are those whose column is `x` and whose row
/// is `y`.
proof fn lemma_pixel(i: int, width: int, x: int, y: int)
    requires
        i >= 0,
        width > 0,
        0 <= x < width,
        y >= 0,
    ensures
        (col_of(i, width) == x && row_of(i, width) == y) <==> (4 * (y * width + x) <= i < 4 * (y * width + x) + 4),
        (4 * (y * width + x) <= i < 4 * (y * width + x) + 4) ==> i % 4 == i - 4 * (y * width + x),
{
    let p = i / 4;
    vstd::arithmetic::div_mod::lemma_fundamental_div_mod(i, 4);
    vstd::arithmetic::div_mod::lemma_fundamental_div_mod(p, width);
    assert(p >= 0);
    let q = y * width + x;
    if col_of(i, width) == x && row_of(i, width) == y {
        assert(p == width * y + x);
        assert(width * y == y * width) by (nonlinear_arith);
    }
    if 4 * q <= i < 4 * q + 4 {
        vstd::arithmetic::div_mod::lemma_fundamental_div_mod_converse(i, 4, q, i - 4 * q);
        assert(q == width * y + x) by (nonlinear_arith) requires q == y * width + x;
        vstd::arithmetic::div_mod::lemma_fundamental_div_mod_converse(p, width, y, x);
    }
}

proof fn lemma_offset_bound(width: int, height: int, x: int, y: int)
    requires
        0 <= x < width,
        0 <= y < height,
    ensures
        4 * (y * width + x) + 4 <= width * height * 4,
{
    assert(y * width + x + 1 <= width * height) by (nonlinear_arith)
        requires 0 <= x < width, 0 <= y < height;
}

/// Writes the pixel `(x, y)`.
fn put_pixel(fb: &mut Framebuffer, x: u32, y: u32, c: Color, alpha: u8)
    requires
        old(fb).wf(),
        x < old(fb).width,
        y < old(fb).height,
    ensures
        final(fb).wf(),
        final(fb).width == old(fb).width,
        final(fb).height == old(fb).height,
        final(fb).data@ == Seq::new(
            old(fb).data@.len(),
            |i: int|
                if col_of(i, old(fb).width as int) == x && row_of(i, old(fb).width as int) == y {
                    channel(c, alpha, i % 4)
                } else {
                    old(fb).data@[i]
                },
        ),
{
    proof {
        lemma_offset_bound(fb.width as int, fb.height as int, x as int, y as int);
        assert(y * fb.width + x < fb.width * fb.height) by (nonlinear_arith)
            requires x < fb.width, y < fb.height;
    }
    let idx = ((y * fb.width + x) * 4) as usize;
    fb.data.set(idx + 2, c.red);
    fb.data.set(idx + 1, c.green);
    fb.data.set(idx, c.blue);
    fb.data.set(idx + 3, alpha);
    proof {
        let w = fb.width as int;
        assert forall|i: int| 0 <= i < fb.data@.len() implies fb.data@[i] == (if col_of(i, w) == x && row_of(i, w) == y {
            channel(c, alpha, i % 4)
        } else {
            old(fb).data@[i]
        }) by {
            lemma_pixel(i, w, x as int, y as int);
        }
        assert(fb.data@ =~= Seq::new(
            old(fb).data@.len(),
            |i: int|
                if col_of(i, w) == x && row_of(i, w) == y {
                    channel(c, alpha, i % 4)
                } else {
                    old(fb).data@[i]
                },
        ));
    }
}

/// Fills the rectangle of `w` by `h` pixels at `(x0, y0)` with colour `c`.
fn fill_rect(fb: &mut Framebuffer, x0: u32, y0: u32, w: u32, h: u32, c: Color, alpha: u8)
    requires
        old(fb).wf(),
        x0 + w <= old(fb).width,
        y0 + h <= old(fb).height,
    ensures
        final(fb).wf(),
        final(fb).width == old(fb).width,
        final(fb).height == old(fb).height,
        final(fb).data@ == fill_spec(old(fb).data@, old(fb).width as int, x0 as int, y0 as int, w as int, h as int, c, alpha),
{
    let ghost v0 = fb.data@;
    let ghost width = fb.width as int;
    let mut y: u32 = y0;
    proof {
        assert(fb.data@ =~= fill_spec(v0, width, x0 as int, y0 as int, w as int, 0, c, alpha));
    }
    while y < y0 + h
        invariant
            fb.wf(),
            fb.width == width,
            fb.height == old(fb).height,
            x0 + w <= fb.width,
            y0 + h <= fb.height,
            y0 <= y <= y0 + h,
            fb.data@ == fill_spec(v0, width, x0 as int, y0 as int, w as int, y - y0, c, alpha),
        decreases y0 + h - y,
    {
        let mut x: u32 = x0;
        while x < x0 + w
            invariant
                fb.wf(),
                fb.width == width,
                fb.height == old(fb).height,
                x0 + w <= fb.width,
                y0 + h <= fb.height,
                y0 <= y < y0 + h,
                x0 <= x <= x0 + w,
                fb.data@ == Seq::new(
                    v0.len(),
                    |i: int|
                        if in_rect(i, width, x0 as int, y0 as int, w as int, y - y0) || in_rect(i, width, x0 as int, y as int, x - x0, 1) {
                            channel(c, alpha, i % 4)
                        } else {
                            v0[i]
                        },
                ),
            decreases x0 + w - x,
        {
            put_pixel(fb, x, y, c, alpha);
            proof {
                assert(fb.data@ =~= Seq::new(
                    v0.len(),
                    |i: int|
                        if in_rect(i, width, x0 as int, y0 as int, w as int, y - y0) || in_rect(i, width, x0 as int, y as int, x + 1 - x0, 1) {
                            channel(c, alpha, i % 4)
                        } else {
                            v0[i]
                        },
                ));
            }
            x = x + 1;
        }
        proof {
            assert(fb.data@ =~= fill_spec(v0, width, x0 as int, y0 as int, w as int, y + 1 - y0, c, alpha));
        }
        y = y + 1;
    }
}

/// Draws a line of `length` pixels from `(start_x, start_y)`, right or
/// down, `line_width` pixels thick, cut at the edges of the screen.
pub fn draw_line(
    fb: &mut Framebuffer,
    direction: DIRECTION,
    start_x: u32,
    start_y: u32,
    length: u32,
    color: Color,
    alpha: u8,
    line_width: u32,
)
    requires
        old(fb).wf(),
        start_x <= old(fb).width,
        start_y <= old(fb).height,
    ensures
        final(fb).wf(),
        final(fb).width == old(fb).width,
        final(fb).height == old(fb).height,
        final(fb).data@ == line_spec(
            old(fb).data@,
            old(fb).width as int,
            old(fb).height as int,
            direction,
            start_x as int,
            start_y as int,
            length as int,
            color,
            alpha,
            line_width as int,
        ),
{
    let room_x = fb.width - start_x;
    let room_y = fb.height - start_y;
    let (w, h) = match direction {
        DIRECTION::Horizontal => (
            if length < room_x { length } else { room_x },
            if line_width < room_y { line_width } else { room_y },
        ),
        DIRECTION::Vertical => (
            if line_width < room_x { line_width } else { room_x },
            if length < room_y { length } else { room_y },
        ),
    };
    fill_rect(fb, start_x, start_y, w, h, color, alpha);
}

/// Paints the whole screen in colour `color`, opaque.
pub fn draw_clear(fb: &mut Framebuffer, color: Color)
    requires
        old(fb).wf(),
    ensures
        final(fb).wf(),
        final(fb).width == old(fb).width,
        final(fb).height == old(fb).height,
        final(fb).data@ == fill_spec(
            old(fb).data@,
            old(fb).width as int,
            0,
            0,
            old(fb).width as int,
            old(fb).height as int,
            color,
            255,
        ),
{
    let (w, h) = (fb.width, fb.height);
    fill_rect(fb, 0, 0, w, h, color, 255);
}

/// Byte `i` of the box of a character drawn at `(start_x, start_y)`.
pub open spec fn font_byte(i: int, width: int, start_x: int, start_y: int, c: Color, alpha: u8, glyph: u128, size: int) -> u8 {
    let n = (row_of(i, width) - start_y) / size * 8 + (col_of(i, width) - start_x) / size;
    if glyph_bit(glyph, n) {
        channel(c, alpha, i % 4)
    } else {
        channel(cyan(), 255, i % 4)
    }
}

proof fn lemma_font_spec(v: Seq<u8>, width: int, height: int, start_x: int, start_y: int, c: Color, alpha: u8, glyph: u128, size: int)
    requires
        start_x + 8 * size <= width,
        start_y + 16 * size <= height,
    ensures
        font_spec(v, width, height, start_x, start_y, c, alpha, glyph, size) == Seq::new(
            v.len(),
            |i: int|
                if in_rect(i, width, start_x, start_y, 8 * size, 16 * size) {
                    font_byte(i, width, start_x, start_y, c, alpha, glyph, size)
                } else {
                    v[i]
                },
        ),
{
    assert(font_spec(v, width, height, start_x, start_y, c, alpha, glyph, size) =~= Seq::new(
        v.len(),
        |i: int|
            if in_rect(i, width, start_x, start_y, 8 * size, 16 * size) {
                font_byte(i, width, start_x, start_y, c, alpha, glyph, size)
            } else {
                v[i]
            },
    ));
}

/// Draws a character whose 8 by 16 bitmap is `glyph`, most significant bit
/// first, each bit a square of `size` pixels: set bits in colour `color`,
/// the others opaque cyan.  Gives 0, or 1 and draws nothing when the
/// character does not fit the screen.
pub fn draw_font(fb: &mut Framebuffer, start_x: u32, start_y: u32, color: Color, alpha: u8, glyph: u128, size: u8) -> (r: u8)
    requires
        old(fb).wf(),
    ensures
        final(fb).wf(),
        final(fb).width == old(fb).width,
        final(fb).height == old(fb).height,
        r == if start_x + 8 * size <= old(fb).width && start_y + 16 * size <= old(fb).height { 0u8 } else { 1u8 },
        final(fb).data@ == font_spec(
            old(fb).data@,
            old(fb).width as int,
            old(fb).height as int,
            start_x as int,
            start_y as int,
            color,
            alpha,
            glyph,
            size as int,
        ),
{
    let sz = size as u32;
    if !(start_x as u64 + 8 * sz as u64 <= fb.width as u64 && start_y as u64 + 16 * sz as u64 <= fb.height as u64) {
        return 1;
    }
    let ghost v0 = fb.data@;
    let ghost width = fb.width as int;
    let ghost si = size as int;
    let cyan_c = Color { red: 0, green: 255, blue: 255 };
    let mut y: u32 = start_y;
    proof {
        lemma_font_spec(v0, width, fb.height as int, start_x as int, start_y as int, color, alpha, glyph, si);
        assert(fb.data@ =~= Seq::new(
            v0.len(),
            |i: int|
                if in_rect(i, width, start_x as int, start_y as int, 8 * si, 0) {
                    font_byte(i, width, start_x as int, start_y as int, color, alpha, glyph, si)
                } else {
                    v0[i]
                },
        ));
    }
    while y < start_y + 16 * sz
        invariant
            fb.wf(),
            fb.width == width,
            fb.height == old(fb).height,
            sz == si,
            start_x + 8 * sz <= fb.width,
            start_y + 16 * sz <= fb.height,
            start_y <= y <= start_y + 16 * sz,
            cyan_c == cyan(),
            fb.data@ == Seq::new(
                v0.len(),
                |i: int|
                    if in_rect(i, width, start_x as int, start_y as int, 8 * si, y - start_y) {
                        font_byte(i, width, start_x as int, start_y as int, color, alpha, glyph, si)
                    } else {
                        v0[i]
                    },
            ),
        decreases start_y + 16 * sz - y,
    {
        let mut x: u32 = start_x;
        while x < start_x + 8 * sz
            invariant
                fb.wf(),
                fb.width == width,
                fb.height == old(fb).height,
                sz == si,
                sz > 0,
                start_x + 8 * sz <= fb.width,
                start_y + 16 * sz <= fb.height,
                start_y <= y < start_y + 16 * sz,
                start_x <= x <= start_x + 8 * sz,
                cyan_c == cyan(),
                fb.data@ == Seq::new(
                    v0.len(),
                    |i: int|
                        if in_rect(i, width, start_x as int, start_y as int, 8 * si, y - start_y) || in_rect(i, width, start_x as int, y as int, x - start_x, 1) {
                            font_byte(i, width, start_x as int, start_y as int, color, alpha, glyph, si)
                        } else {
                            v0[i]
                        },
                ),
            decreases start_x + 8 * sz - x,
        {
            proof {
                assert((y - start_y) / (sz as int) < 16) by (nonlinear_arith)
                    requires y - start_y < 16 * sz, sz > 0;
                assert((x - start_x) / (sz as int) < 8) by (nonlinear_arith)
                    requires x - start_x < 8 * sz, sz > 0;
            }
            let num = (y - start_y) / sz * 8 + (x - start_x) / sz;
            proof {
                assert(num < 128);
                let sh = (127 - num) as u128;
                assert(((glyph & (1u128 << sh)) == (1u128 << sh)) == ((glyph >> sh) & 1 == 1)) by (bit_vector)
                    requires sh < 128;
            }
            let bit = 1u128 << (127 - num);
            if glyph & bit == bit {
                put_pixel(fb, x, y, color, alpha);
            } else {
                put_pixel(fb, x, y, cyan_c, 255);
            }
            proof {
                assert(fb.data@ =~= Seq::new(
                    v0.len(),
                    |i: int|
                        if in_rect(i, width, start_x as int, start_y as int, 8 * si, y - start_y) || in_rect(i, width, start_x as int, y as int, x + 1 - start_x, 1) {
                            font_byte(i, width, start_x as int, start_y as int, color, alpha, glyph, si)
                        } else {
                            v0[i]
                        },
                ));
            }
            x = x + 1;
        }
        proof {
            assert(fb.data@ =~= Seq::new(
                v0.len(),
                |i: int|
                    if in_rect(i, width, start_x as int, start_y as int, 8 * si, y + 1 - start_y) {
                        font_byte(i, width, start_x as int, start_y as int, color, alpha, glyph, si)
                    } else {
                        v0[i]
                    },
            ));
        }
        y = y + 1;
    }
    0
}

/// Draws the frame of the selected cell whose corner is `(start_x,
/// start_y)`: a 65-pixel square set 5 pixels inside the cell.
pub fn draw_select(fb: &mut Framebuffer, start_x: u32, start_y: u32, color: Color)
    requires
        old(fb).wf(),
        start_x + 70 <= old(fb).width,
        start_y + 70 <= old(fb).height,
    ensures
        final(fb).wf(),
        final(fb).width == old(fb).width,
        final(fb).height == old(fb).height,
        ({
            let (w, h) = (old(fb).width as int, old(fb).height as int);
            let (x, y) = (start_x as int, start_y as int);
            final(fb).data@ == line_spec(
                line_spec(
                    line_spec(
                        line_spec(old(fb).data@, w, h, DIRECTION::Horizontal, x + 5, y + 5, 65, color, 255, 1),
                        w, h, DIRECTION::Horizontal, x + 5, y + 70, 65, color, 255, 1,
                    ),
                    w, h, DIRECTION::Vertical, x + 5, y + 5, 65, color, 255, 1,
                ),
                w, h, DIRECTION::Vertical, x + 70, y + 5, 65, color, 255, 1,
            )
        }),
{
    draw_line(fb, DIRECTION::Horizontal, start_x + 5, start_y + 5, 65, color, 255, 1);
    draw_line(fb, DIRECTION::Horizontal, start_x + 5, start_y + 70, 65, color, 255, 1);
    draw_line(fb, DIRECTION::Vertical, start_x + 5, start_y + 5, 65, color, 255, 1);
    draw_line(fb, DIRECTION::Vertical, start_x + 70, start_y + 5, 65, color, 255, 1);
}

/// The bytes and the pen position after printing the characters `text`
/// from `(start_x, start_y)`: a line feed goes back to `start_x` one
/// character height lower, any other character is drawn with its bitmap
/// from `glyphs` and moves the pen one character width right.
pub open spec fn print_spec(
    v: Seq<u8>,
    width: int,
    height: int,
    glyphs: Seq<u128>,
    text: Seq<char>,
    start_x: int,
    start_y: int,
    c: Color,
    alpha: u8,
    size: int,
) -> (Seq<u8>, int, int)
    decreases text.len(),
{
    if text.len() == 0 {
        (v, start_x, start_y)
    } else {
        let (v1, x, y) = print_spec(v, width, height, glyphs, text.drop_last(), start_x, start_y, c, alpha, size);
        let ch = text.last();
        if ch == '\n' {
            (v1, start_x, y + 16 * size)
        } else {
            (font_spec(v1, width, height, x, y, c, alpha, glyphs[ch as int], size), x + 8 * size, y)
        }
    }
}

/// Where the next character goes once `text` was printed from
/// `(start_x, start_y)`.
pub open spec fn print_pos(text: Seq<char>, start_x: int, start_y: int, size: int) -> (int, int)
    decreases text.len(),
{
    if text.len() == 0 {
        (start_x, start_y)
    } else {
        let (x, y) = print_pos(text.drop_last(), start_x, start_y, size);
        if text.last() == '\n' {
            (start_x, y + 16 * size)
        } else {
            (x + 8 * size, y)
        }
    }
}

/// Printing `text` from `(start_x, start_y)` keeps every coordinate it
/// computes within `u32`: a newline moves down by `16 * size` and any other
/// character right by `8 * size`.
pub open spec fn print_fits(text: Seq<char>, start_x: int, start_y: int, size: int) -> bool {
    forall|i: int| 0 <= i < text.len() ==> if #[trigger] text[i] == '\n' {
        print_pos(text.take(i), start_x, start_y, size).1 + 16 * size <= u32::MAX
    } else {
        print_pos(text.take(i), start_x, start_y, size).0 + 8 * size <= u32::MAX
    }
}

/// Number of line feeds in `text`.
pub open spec fn newlines(text: Seq<char>) -> int
    decreases text.len(),
{
    if text.len() == 0 {
        0
    } else {
        newlines(text.drop_last()) + if text.last() == '\n' { 1int } else { 0int }
    }
}

/// Number of characters after the last line feed of `text`.
pub open spec fn last_line_len(text: Seq<char>) -> int
    decreases text.len(),
{
    if text.len() == 0 {
        0
    } else if text.last() == '\n' {
        0
    } else {
        last_line_len(text.drop_last()) + 1
    }
}

/// Where printing puts the pen: after `text` it stands one character height
/// (`16 * size`) lower for each line feed, and one character width
/// (`8 * size`) to the right of `start_x` for each character of the last
/// line; so a character is drawn with its top row `16 * size` lower for each
/// line feed before it, and its left column `8 * size` further right for
/// each character before it on its line, and lines never overlap.
pub proof fn lemma_print_lines(
    v: Seq<u8>,
    width: int,
    height: int,
    glyphs: Seq<u128>,
    text: Seq<char>,
    start_x: int,
    start_y: int,
    c: Color,
    alpha: u8,
    size: int,
    ch: char,
)
    ensures
        ({
            let (v1, x, y) = print_spec(v, width, height, glyphs, text, start_x, start_y, c, alpha, size);
            &&& y == start_y + 16 * size * newlines(text)
            &&& x == start_x + 8 * size * last_line_len(text)
            &&& ch != '\n' ==> print_spec(v, width, height, glyphs, text.push(ch), start_x, start_y, c, alpha, size) == (
                font_spec(v1, width, height, start_x + 8 * size * last_line_len(text),
                    start_y + 16 * size * newlines(text), c, alpha, glyphs[ch as int], size),
                start_x + 8 * size * (last_line_len(text) + 1),
                start_y + 16 * size * newlines(text),
            )
            &&& ch == '\n' ==> print_spec(v, width, height, glyphs, text.push(ch), start_x, start_y, c, alpha, size) == (
                v1,
                start_x,
                start_y + 16 * size * (newlines(text) + 1),
            )
        }),
    decreases text.len(),
{
    if text.len() > 0 {
        lemma_print_lines(v, width, height, glyphs, text.drop_last(), start_x, start_y, c, alpha, size, ch);
        let n = newlines(text.drop_last());
        let l = last_line_len(text.drop_last());
        assert(16 * size * n + 16 * size == 16 * size * (n + 1)) by (nonlinear_arith);
        assert(8 * size * l + 8 * size == 8 * size * (l + 1)) by (nonlinear_arith);
        assert(8 * size * 0 == 0) by (nonlinear_arith);
    } else {
        assert(16 * size * 0 == 0) by (nonlinear_arith);
        assert(8 * size * 0 == 0) by (nonlinear_arith);
    }
    let t2 = text.push(ch);
    assert(t2.drop_last() =~= text);
    assert(16 * size * newlines(text) + 16 * size == 16 * size * (newlines(text) + 1)) by (nonlinear_arith);
    assert(8 * size * last_line_len(text) + 8 * size == 8 * size * (last_line_len(text) + 1)) by (nonlinear_arith);
}

proof fn lemma_print_pos(
    v: Seq<u8>,
    width: int,
    height: int,
    glyphs: Seq<u128>,
    text: Seq<char>,
    start_x: int,
    start_y: int,
    c: Color,
    alpha: u8,
    size: int,
)
    ensures
        ({
            let (v1, x, y) = print_spec(v, width, height, glyphs, text, start_x, start_y, c, alpha, size);
            &&& (x, y) == print_pos(text, start_x, start_y, size)
            &&& v1.len() == v.len()
        }),
    decreases text.len(),
{
    if text.len() > 0 {
        lemma_print_pos(v, width, height, glyphs, text.drop_last(), start_x, start_y, c, alpha, size);
    }
}

/// Prints `text` from `(start_x, start_y)`, as `print_spec` says.
pub fn printg(
    fb: &mut Framebuffer,
    glyphs: &[u128],
    text: &str,
    start_x: u32,
    start_y: u32,
    color: Color,
    alpha: u8,
    size: u8,
)
    requires
        old(fb).wf(),
        forall|i: int| 0 <= i < text@.len() && text@[i] != '\n' ==> (#[trigger] text@[i] as int) < glyphs@.len(),
        print_fits(text@, start_x as int, start_y as int, size as int),
    ensures
        final(fb).wf(),
        final(fb).width == old(fb).width,
        final(fb).height == old(fb).height,
        final(fb).data@ == print_spec(
            old(fb).data@,
            old(fb).width as int,
            old(fb).height as int,
            glyphs@,
            text@,
            start_x as int,
            start_y as int,
            color,
            alpha,
            size as int,
        ).0,
{
    let ghost v0 = fb.data@;
    let ghost (w, h) = (fb.width as int, fb.height as int);
    let n = text.unicode_len();
    let mut x = start_x;
    let mut y = start_y;
    let mut i: usize = 0;
    proof {
        assert(text@.take(0) =~= Seq::<char>::empty());
    }
    while i < n
        invariant
            fb.wf(),
            fb.width == w,
            fb.height == h,
            n == text@.len(),
            i <= n,
            forall|k: int| 0 <= k < text@.len() && text@[k] != '\n' ==> (#[trigger] text@[k] as int) < glyphs@.len(),
            print_fits(text@, start_x as int, start_y as int, size as int),
            (fb.data@, x as int, y as int) == print_spec(v0, w, h, glyphs@, text@.take(i as int), start_x as int, start_y as int, color, alpha, size as int),
        decreases n - i,
    {
        let ch = text.get_char(i);
        proof {
            lemma_print_pos(v0, w, h, glyphs@, text@.take(i as int), start_x as int, start_y as int, color, alpha, size as int);
            assert(text@.take(i + 1).drop_last() =~= text@.take(i as int));
            assert(text@.take(i + 1).last() == ch);
            assert(text@[i as int] == ch);
        }
        if ch == '\n' {
            x = start_x;
            y = y + 16 * size as u32;
        } else {
            let g = glyphs[ch as usize];
            draw_font(fb, x, y, color, alpha, g, size);
            x = x + 8 * size as u32;
        }
        i = i + 1;
    }
    proof {
        assert(text@.take(n as int) =~= text@);
    }
}

} // verus!
