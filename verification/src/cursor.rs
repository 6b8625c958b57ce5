//! The mouse cursor: a black cross, drawn over the screen after the pixels
//! under it were saved, and taken away by putting them back.
use vstd::prelude::*;
use crate::gpu::{Color, DIRECTION, Framebuffer, draw_line, line_spec, fill_spec, line_box, in_rect, col_of, row_of};

verus! {

/// Words in the save buffer.
pub const CURSOR_WORDS: usize = 1000;

/// The pixels under the cursor: word 0 is their number, then five words
/// for each: the byte offset of the pixel, then its red, green, blue and
/// alpha bytes.
pub struct CursorSave {
    pub buf: Vec<u32>,
}

impl CursorSave {
    /// A save buffer that holds no pixel.
    pub fn new() -> (s: CursorSave)
        ensures
            s.buf@.len() == CURSOR_WORDS,
            forall|i: int| 0 <= i < CURSOR_WORDS ==> s.buf@[i] == 0,
    {
        let mut buf: Vec<u32> = Vec::new();
        let mut k: usize = 0;
        while k < CURSOR_WORDS
            invariant
                k <= CURSOR_WORDS,
                buf@.len() == k,
                forall|i: int| 0 <= i < k ==> buf@[i] == 0,
            decreases CURSOR_WORDS - k,
        {
            buf.push(0);
            k = k + 1;
        }
        CursorSave { buf }
    }

    /// The saved pixels fit the buffer and lie within `len` bytes.
    pub open spec fn valid_for(&self, len: int) -> bool {
        &&& self.buf@.len() == CURSOR_WORDS
        &&& 5 * self.buf@[0] + 1 <= CURSOR_WORDS
        &&& forall|e: int| 1 <= e <= self.buf@[0] ==> #[trigger] self.buf@[5 * e - 4] + 4 <= len
    }
}

/// Number of integers from `lo` to `hi`, both included.
pub open spec fn span(lo: int, hi: int) -> int {
    if hi >= lo { hi - lo + 1 } else { 0 }
}

/// The larger of `a` and `b`.
pub open spec fn max_int(a: int, b: int) -> int {
    if a >= b { a } else { b }
}

/// The smaller of `a` and `b`.
pub open spec fn min_int(a: int, b: int) -> int {
    if a <= b { a } else { b }
}

/// The horizontal bar saved around `(sx, sy)`: first and last column, first
/// and last row.
pub open spec fn hbar(sx: int, sy: int, w: int, h: int) -> (int, int, int, int) {
    (max_int(sx, 10) - 10, min_int(sx + 10, w - 1), max_int(sy, 1) - 1, min_int(sy + 1, h - 1))
}

/// The vertical bar saved around `(sx, sy)`: first and last column, first
/// and last row.
pub open spec fn vbar(sx: int, sy: int, w: int, h: int) -> (int, int, int, int) {
    (max_int(sx, 1) - 1, min_int(sx + 1, w - 1), max_int(sy, 10) - 10, min_int(sy + 10, h - 1))
}

/// Number of pixels of the horizontal bar.
pub open spec fn n_hbar(sx: int, sy: int, w: int, h: int) -> int {
    let (x0, x1, y0, y1) = hbar(sx, sy, w, h);
    span(x0, x1) * span(y0, y1)
}

/// Number of pixels saved.
pub open spec fn n_saved(sx: int, sy: int, w: int, h: int) -> int {
    let (x0, x1, y0, y1) = vbar(sx, sy, w, h);
    n_hbar(sx, sy, w, h) + span(x0, x1) * span(y0, y1)
}

/// Pixel `e` of those saved: the horizontal bar row by row, then the
/// vertical bar column by column.
pub open spec fn saved_pixel(sx: int, sy: int, w: int, h: int, e: int) -> (int, int) {
    let (hx0, hx1, hy0, hy1) = hbar(sx, sy, w, h);
    let (vx0, vx1, vy0, vy1) = vbar(sx, sy, w, h);
    let nh = n_hbar(sx, sy, w, h);
    if e < nh {
        (hx0 + e % span(hx0, hx1), hy0 + e / span(hx0, hx1))
    } else {
        (vx0 + (e - nh) / span(vy0, vy1), vy0 + (e - nh) % span(vy0, vy1))
    }
}

/// Byte offset of pixel `(x, y)`.
pub open spec fn offset(x: int, y: int, w: int) -> int {
    4 * (y * w + x)
}

/// The bytes `v` after the first `k` saved pixels of `buf` were put back.
pub open spec fn restore_spec(v: Seq<u8>, buf: Seq<u32>, k: int) -> Seq<u8>
    decreases k,
{
    if k <= 0 {
        v
    } else {
        let v1 = restore_spec(v, buf, k - 1);
        let off = buf[5 * k - 4] as int;
        Seq::new(
            v1.len(),
            |i: int|
                if i == off + 2 {
                    buf[5 * k - 3] as u8
                } else if i == off + 1 {
                    buf[5 * k - 2] as u8
                } else if i == off {
                    buf[5 * k - 1] as u8
                } else if i == off + 3 {
                    buf[5 * k] as u8
                } else {
                    v1[i]
                },
        )
    }
}

/// `buf` holds the pixels of `r` around `(sx, sy)`, and elsewhere what
/// `old_buf` held.
pub open spec fn saved_ok(buf: Seq<u32>, old_buf: Seq<u32>, r: Seq<u8>, sx: int, sy: int, w: int, h: int) -> bool {
    let n = n_saved(sx, sy, w, h);
    &&& buf.len() == CURSOR_WORDS
    &&& buf[0] == n
    &&& forall|e: int| 0 <= e < n ==> {
        let (x, y) = #[trigger] saved_pixel(sx, sy, w, h, e);
        let off = offset(x, y, w);
        &&& buf[1 + 5 * e] == off
        &&& buf[2 + 5 * e] == r[off + 2]
        &&& buf[3 + 5 * e] == r[off + 1]
        &&& buf[4 + 5 * e] == r[off]
        &&& buf[5 + 5 * e] == r[off + 3]
    }
    &&& forall|j: int| 1 + 5 * n <= j < CURSOR_WORDS ==> #[trigger] buf[j] == old_buf[j]
}

/// The black of the cursor.
pub open spec fn cursor_black() -> Color {
    Color { red: 0, green: 0, blue: 0 }
}

/// The bytes `r` with the cross drawn at `(sx, sy)`: a horizontal and a
/// vertical line, three pixels thick, of up to 21 pixels each.
pub open spec fn cross_spec(r: Seq<u8>, sx: int, sy: int, w: int, h: int) -> Seq<u8> {
    let (hx0, hx1, hy0, hy1) = hbar(sx, sy, w, h);
    let (vx0, vx1, vy0, vy1) = vbar(sx, sy, w, h);
    line_spec(
        line_spec(r, w, h, DIRECTION::Horizontal, hx0, hy0, min_int(21, sx + 10), cursor_black(), 255, 3),
        w,
        h,
        DIRECTION::Vertical,
        vx0,
        vy0,
        min_int(21, sy + 10),
        cursor_black(),
        255,
        3,
    )
}

proof fn lemma_spans(sx: int, sy: int, w: int, h: int)
    requires
        sx >= 0,
        sy >= 0,
        w >= 1,
        h >= 1,
    ensures
        0 <= n_hbar(sx, sy, w, h) <= 63,
        n_hbar(sx, sy, w, h) <= n_saved(sx, sy, w, h) <= 126,
{
    let (hx0, hx1, hy0, hy1) = hbar(sx, sy, w, h);
    let (vx0, vx1, vy0, vy1) = vbar(sx, sy, w, h);
    let (a, b, c, d) = (span(hx0, hx1), span(hy0, hy1), span(vx0, vx1), span(vy0, vy1));
    assert(0 <= a <= 21 && 0 <= b <= 3 && 0 <= c <= 3 && 0 <= d <= 21);
    assert(0 <= a * b <= 63) by (nonlinear_arith) requires 0 <= a <= 21, 0 <= b <= 3;
    assert(0 <= c * d <= 63) by (nonlinear_arith) requires 0 <= c <= 3, 0 <= d <= 21;
}

proof fn lemma_pixel_offset(x: int, y: int, w: int, h: int)
    requires
        0 <= x < w,
        0 <= y < h,
    ensures
        0 <= offset(x, y, w),
        offset(x, y, w) + 4 <= w * h * 4,
{
    assert(0 <= y * w) by (nonlinear_arith) requires y >= 0, w >= 0;
    assert(y * w + x + 1 <= w * h) by (nonlinear_arith) requires 0 <= x < w, 0 <= y < h;
}

/// Puts back the saved pixels.
fn restore(fb: &mut Framebuffer, save: &CursorSave)
    requires
        old(fb).wf(),
        save.valid_for(old(fb).data@.len() as int),
    ensures
        final(fb).wf(),
        final(fb).width == old(fb).width,
        final(fb).height == old(fb).height,
        final(fb).data@ == restore_spec(old(fb).data@, save.buf@, save.buf@[0] as int),
{
    let ghost v0 = fb.data@;
    let count = save.buf[0] as usize;
    let mut i: usize = 1;
    while i <= count
        invariant
            fb.wf(),
            fb.width == old(fb).width,
            fb.height == old(fb).height,
            fb.data@.len() == v0.len(),
            save.valid_for(v0.len() as int),
            count == save.buf@[0],
            1 <= i <= count + 1,
            fb.data@ == restore_spec(v0, save.buf@, i - 1),
        decreases count + 1 - i,
    {
        proof {
            assert(save.buf@[5 * (i as int) - 4] + 4 <= v0.len());
        }
        let off = save.buf[5 * i - 4] as usize;
        fb.data.set(off + 2, save.buf[5 * i - 3] as u8);
        fb.data.set(off + 1, save.buf[5 * i - 2] as u8);
        fb.data.set(off, save.buf[5 * i - 1] as u8);
        fb.data.set(off + 3, save.buf[5 * i] as u8);
        proof {
            assert(fb.data@ =~= restore_spec(v0, save.buf@, i as int));
        }
        i = i + 1;
    }
}

/// Saves pixel `(x, y)` as entry `e`, at word `1 + 5 * e`.
fn save_pixel(fb: &Framebuffer, save: &mut CursorSave, idx_cursor: usize, x: u32, y: u32)
    requires
        fb.wf(),
        x < fb.width,
        y < fb.height,
        old(save).buf@.len() == CURSOR_WORDS,
        idx_cursor + 5 <= CURSOR_WORDS,
    ensures
        ({
            let off = offset(x as int, y as int, fb.width as int);
            let r = fb.data@;
            final(save).buf@ == old(save).buf@.update(idx_cursor as int, off as u32).update(idx_cursor + 1, r[off + 2] as u32).update(
                idx_cursor + 2,
                r[off + 1] as u32,
            ).update(idx_cursor + 3, r[off] as u32).update(idx_cursor + 4, r[off + 3] as u32)
        }),
{
    proof {
        lemma_pixel_offset(x as int, y as int, fb.width as int, fb.height as int);
        assert((y * fb.width + x) * 4 == offset(x as int, y as int, fb.width as int)) by (nonlinear_arith);
    }
    let idx = (y * fb.width + x) * 4;
    let i = idx as usize;
    save.buf.set(idx_cursor, idx);
    save.buf.set(idx_cursor + 1, fb.data[i + 2] as u32);
    save.buf.set(idx_cursor + 2, fb.data[i + 1] as u32);
    save.buf.set(idx_cursor + 3, fb.data[i] as u32);
    save.buf.set(idx_cursor + 4, fb.data[i + 3] as u32);
}

/// The saved entries below `e` are right: each holds its pixel of `r`.
pub open spec fn entries_ok(buf: Seq<u32>, r: Seq<u8>, sx: int, sy: int, w: int, h: int, e: int) -> bool {
    forall|e2: int| 0 <= e2 < e ==> {
        let (x, y) = #[trigger] saved_pixel(sx, sy, w, h, e2);
        let off = offset(x, y, w);
        &&& buf[1 + 5 * e2] == off
        &&& buf[2 + 5 * e2] == r[off + 2]
        &&& buf[3 + 5 * e2] == r[off + 1]
        &&& buf[4 + 5 * e2] == r[off]
        &&& buf[5 + 5 * e2] == r[off + 3]
        &&& 0 <= x < w
        &&& 0 <= y < h
    }
}

/// Saves the pixels of the horizontal bar around `(start_x, start_y)`, row
/// by row, as the first entries of the buffer; returns the word after them.
#[verifier::spinoff_prover]
fn save_hbar(fb: &Framebuffer, save: &mut CursorSave, start_x: u32, start_y: u32) -> (idx: usize)
    requires
        fb.wf(),
        fb.width >= 1,
        fb.height >= 1,
        start_x <= fb.width + 1,
        start_y <= fb.height + 1,
        old(save).buf@.len() == CURSOR_WORDS,
    ensures
        final(save).buf@.len() == CURSOR_WORDS,
        idx == 1 + 5 * n_hbar(start_x as int, start_y as int, fb.width as int, fb.height as int),
        entries_ok(
            final(save).buf@,
            fb.data@,
            start_x as int,
            start_y as int,
            fb.width as int,
            fb.height as int,
            n_hbar(start_x as int, start_y as int, fb.width as int, fb.height as int),
        ),
        forall|j: int| idx <= j < CURSOR_WORDS ==> #[trigger] final(save).buf@[j] == old(save).buf@[j],
{
    let w = fb.width;
    let h = fb.height;
    proof {
        assert(w <= u32::MAX / 4 && h <= u32::MAX / 4) by (nonlinear_arith)
            requires w * h * 4 <= u32::MAX, w >= 1, h >= 1;
    }
    let ghost buf0 = save.buf@;
    let ghost r = fb.data@;
    let ghost (sx, sy, wi, hi) = (start_x as int, start_y as int, w as int, h as int);
    let hx0 = if start_x >= 10 { start_x - 10 } else { 0 };
    let hx1 = if start_x + 10 < w - 1 { start_x + 10 } else { w - 1 };
    let hy0 = if start_y >= 1 { start_y - 1 } else { 0 };
    let hy1 = if start_y + 1 < h - 1 { start_y + 1 } else { h - 1 };
    let ghost hcols = hx1 + 1 - hx0;
    let ghost nh = n_hbar(sx, sy, wi, hi);
    proof {
        lemma_spans(sx, sy, wi, hi);
        assert(hbar(sx, sy, wi, hi) == (hx0 as int, hx1 as int, hy0 as int, hy1 as int));
        assert(hcols == span(hx0 as int, hx1 as int));
        assert(nh == hcols * (hy1 + 1 - hy0));
    }
    let mut idx_cursor: usize = 1;
    let ghost mut e: int = 0;
    let mut y = hy0;
    proof {
        assert((y - hy0) * hcols == 0) by (nonlinear_arith)
            requires y == hy0;
    }
    while y < hy1 + 1
        invariant
            fb.wf(),
            r == fb.data@,
            wi == fb.width,
            hi == fb.height,
            save.buf@.len() == CURSOR_WORDS,
            hy0 <= y <= hy1 + 1,
            hx0 <= hx1 + 1,
            hx1 < wi,
            hy1 < hi,
            hbar(sx, sy, wi, hi) == (hx0 as int, hx1 as int, hy0 as int, hy1 as int),
            hcols == span(hx0 as int, hx1 as int),
            nh == hcols * (hy1 + 1 - hy0),
            nh <= 63,
            e == (y - hy0) * hcols,
            0 <= e <= nh,
            idx_cursor == 1 + 5 * e,
            entries_ok(save.buf@, r, sx, sy, wi, hi, e),
            forall|j: int| 1 + 5 * e <= j < CURSOR_WORDS ==> #[trigger] save.buf@[j] == buf0[j],
        decreases hy1 + 1 - y,
    {
        let mut x = hx0;
        proof {
            assert((y - hy0 + 1) * hcols == (y - hy0) * hcols + hcols) by (nonlinear_arith);
            assert((y + 1 - hy0) * hcols <= nh) by (nonlinear_arith)
                requires y < hy1 + 1, nh == hcols * (hy1 + 1 - hy0), hcols >= 0;
        }
        while x < hx1 + 1
            invariant
                fb.wf(),
                r == fb.data@,
                wi == fb.width,
                hi == fb.height,
                save.buf@.len() == CURSOR_WORDS,
                hy0 <= y < hy1 + 1,
                hx0 <= x <= hx1 + 1,
                hx1 < wi,
                hy1 < hi,
                hbar(sx, sy, wi, hi) == (hx0 as int, hx1 as int, hy0 as int, hy1 as int),
                hcols == span(hx0 as int, hx1 as int),
                nh == hcols * (hy1 + 1 - hy0),
                nh <= 63,
                (y + 1 - hy0) * hcols <= nh,
                e == (y - hy0) * hcols + (x - hx0),
                0 <= e <= nh,
                idx_cursor == 1 + 5 * e,
                entries_ok(save.buf@, r, sx, sy, wi, hi, e),
                forall|j: int| 1 + 5 * e <= j < CURSOR_WORDS ==> #[trigger] save.buf@[j] == buf0[j],
            decreases hx1 + 1 - x,
        {
            proof {
                assert(e < (y + 1 - hy0) * hcols) by (nonlinear_arith)
                    requires e == (y - hy0) * hcols + (x - hx0), x < hx1 + 1, hcols == hx1 + 1 - hx0;
                lemma_div_mod_exact(e, hcols, y - hy0, x - hx0);
                assert(saved_pixel(sx, sy, wi, hi, e) == (x as int, y as int));
            }
            let ghost b1 = save.buf@;
            save_pixel(fb, save, idx_cursor, x, y);
            proof {
                lemma_save_step(b1, save.buf@, buf0, r, sx, sy, wi, hi, e, x as int, y as int);
            }
            idx_cursor = idx_cursor + 5;
            proof {
                e = e + 1;
            }
            x = x + 1;
        }
        y = y + 1;
    }
    proof {
        assert(e == nh) by (nonlinear_arith)
            requires e == (y - hy0) * hcols, y == hy1 + 1, nh == hcols * (hy1 + 1 - hy0);
    }
    idx_cursor
}

/// Saves the pixels of the vertical bar around `(start_x, start_y)`,
/// column by column, after the entries of the horizontal bar, which start
/// at word 1 and end before `idx`; returns the word after them.
#[verifier::spinoff_prover]
fn save_vbar(fb: &Framebuffer, save: &mut CursorSave, start_x: u32, start_y: u32, idx: usize) -> (idx2: usize)
    requires
        fb.wf(),
        fb.width >= 1,
        fb.height >= 1,
        start_x <= fb.width + 1,
        start_y <= fb.height + 1,
        old(save).buf@.len() == CURSOR_WORDS,
        idx == 1 + 5 * n_hbar(start_x as int, start_y as int, fb.width as int, fb.height as int),
        entries_ok(
            old(save).buf@,
            fb.data@,
            start_x as int,
            start_y as int,
            fb.width as int,
            fb.height as int,
            n_hbar(start_x as int, start_y as int, fb.width as int, fb.height as int),
        ),
    ensures
        final(save).buf@.len() == CURSOR_WORDS,
        idx2 == 1 + 5 * n_saved(start_x as int, start_y as int, fb.width as int, fb.height as int),
        entries_ok(
            final(save).buf@,
            fb.data@,
            start_x as int,
            start_y as int,
            fb.width as int,
            fb.height as int,
            n_saved(start_x as int, start_y as int, fb.width as int, fb.height as int),
        ),
        forall|j: int| idx2 <= j < CURSOR_WORDS ==> #[trigger] final(save).buf@[j] == old(save).buf@[j],
{
    let w = fb.width;
    let h = fb.height;
    proof {
        assert(w <= u32::MAX / 4 && h <= u32::MAX / 4) by (nonlinear_arith)
            requires w * h * 4 <= u32::MAX, w >= 1, h >= 1;
    }
    let ghost buf0 = save.buf@;
    let ghost r = fb.data@;
    let ghost (sx, sy, wi, hi) = (start_x as int, start_y as int, w as int, h as int);
    let vx0 = if start_x >= 1 { start_x - 1 } else { 0 };
    let vx1 = if start_x + 1 < w - 1 { start_x + 1 } else { w - 1 };
    let vy0 = if start_y >= 10 { start_y - 10 } else { 0 };
    let vy1 = if start_y + 10 < h - 1 { start_y + 10 } else { h - 1 };
    let ghost vrows = vy1 + 1 - vy0;
    let ghost nh = n_hbar(sx, sy, wi, hi);
    let ghost n = n_saved(sx, sy, wi, hi);
    proof {
        lemma_spans(sx, sy, wi, hi);
        assert(vbar(sx, sy, wi, hi) == (vx0 as int, vx1 as int, vy0 as int, vy1 as int));
        assert(vrows == span(vy0 as int, vy1 as int));
        assert(n == nh + (vx1 + 1 - vx0) * vrows);
        assert(0 * vrows == 0);
    }
    let mut idx_cursor: usize = idx;
    let ghost mut e: int = nh;
    let mut x = vx0;
    proof {
        assert((x - vx0) * vrows == 0) by (nonlinear_arith)
            requires x == vx0;
    }
    while x < vx1 + 1
        invariant
            fb.wf(),
            r == fb.data@,
            wi == fb.width,
            hi == fb.height,
            save.buf@.len() == CURSOR_WORDS,
            vx0 <= x <= vx1 + 1,
            vy0 <= vy1 + 1,
            vx1 < wi,
            vy1 < hi,
            vbar(sx, sy, wi, hi) == (vx0 as int, vx1 as int, vy0 as int, vy1 as int),
            nh == n_hbar(sx, sy, wi, hi),
            vrows == vy1 + 1 - vy0,
            n == nh + (vx1 + 1 - vx0) * vrows,
            n <= 126,
            e == nh + (x - vx0) * vrows,
            nh <= e <= n,
            idx_cursor == 1 + 5 * e,
            entries_ok(save.buf@, r, sx, sy, wi, hi, e),
            forall|j: int| 1 + 5 * e <= j < CURSOR_WORDS ==> #[trigger] save.buf@[j] == buf0[j],
        decreases vx1 + 1 - x,
    {
        let mut y = vy0;
        proof {
            assert((x - vx0 + 1) * vrows == (x - vx0) * vrows + vrows) by (nonlinear_arith);
            assert(nh + (x + 1 - vx0) * vrows <= n) by (nonlinear_arith)
                requires x < vx1 + 1, n == nh + (vx1 + 1 - vx0) * vrows, vrows >= 0;
        }
        while y < vy1 + 1
            invariant
                fb.wf(),
                r == fb.data@,
                wi == fb.width,
                hi == fb.height,
                save.buf@.len() == CURSOR_WORDS,
                vx0 <= x < vx1 + 1,
                vy0 <= y <= vy1 + 1,
                vx1 < wi,
                vy1 < hi,
                vbar(sx, sy, wi, hi) == (vx0 as int, vx1 as int, vy0 as int, vy1 as int),
                nh == n_hbar(sx, sy, wi, hi),
                vrows == vy1 + 1 - vy0,
                vrows == span(vy0 as int, vy1 as int),
                n <= 126,
                nh + (x + 1 - vx0) * vrows <= n,
                e == nh + (x - vx0) * vrows + (y - vy0),
                nh <= e <= n,
                idx_cursor == 1 + 5 * e,
                entries_ok(save.buf@, r, sx, sy, wi, hi, e),
                forall|j: int| 1 + 5 * e <= j < CURSOR_WORDS ==> #[trigger] save.buf@[j] == buf0[j],
            decreases vy1 + 1 - y,
        {
            proof {
                assert(e < nh + (x + 1 - vx0) * vrows) by (nonlinear_arith)
                    requires e == nh + (x - vx0) * vrows + (y - vy0), y < vy1 + 1, vrows == vy1 + 1 - vy0;
                lemma_div_mod_exact(e - nh, vrows, x - vx0, y - vy0);
                assert(saved_pixel(sx, sy, wi, hi, e) == (x as int, y as int));
            }
            let ghost b1 = save.buf@;
            save_pixel(fb, save, idx_cursor, x, y);
            proof {
                lemma_save_step(b1, save.buf@, buf0, r, sx, sy, wi, hi, e, x as int, y as int);
            }
            idx_cursor = idx_cursor + 5;
            proof {
                e = e + 1;
            }
            y = y + 1;
        }
        x = x + 1;
    }
    proof {
        assert(e == n) by (nonlinear_arith)
            requires e == nh + (x - vx0) * vrows, x == vx1 + 1, n == nh + (vx1 + 1 - vx0) * vrows;
    }
    idx_cursor
}

/// Moves the cursor to `(start_x, start_y)`: unless this is the first
/// time, puts back the pixels saved under it, then saves the pixels of a
/// horizontal and a vertical bar around the new point, and draws the
/// cross there.
pub fn update_cursor(fb: &mut Framebuffer, save: &mut CursorSave, start_x: u32, start_y: u32, is_init: bool)
    requires
        old(fb).wf(),
        old(fb).width >= 1,
        old(fb).height >= 1,
        start_x <= old(fb).width + 1,
        start_y <= old(fb).height + 1,
        old(save).buf@.len() == CURSOR_WORDS,
        !is_init ==> old(save).valid_for(old(fb).data@.len() as int),
    ensures
        final(fb).wf(),
        final(fb).width == old(fb).width,
        final(fb).height == old(fb).height,
        final(save).valid_for(final(fb).data@.len() as int),
        ({
            let (w, h) = (old(fb).width as int, old(fb).height as int);
            let r = if is_init {
                old(fb).data@
            } else {
                restore_spec(old(fb).data@, old(save).buf@, old(save).buf@[0] as int)
            };
            &&& saved_ok(final(save).buf@, old(save).buf@, r, start_x as int, start_y as int, w, h)
            &&& final(fb).data@ == cross_spec(r, start_x as int, start_y as int, w, h)
        }),
{
    if !is_init {
        restore(fb, save);
    }
    let ghost r = fb.data@;
    let w = fb.width;
    let h = fb.height;
    let ghost (sx, sy, wi, hi) = (start_x as int, start_y as int, w as int, h as int);
    proof {
        assert(w <= u32::MAX / 4 && h <= u32::MAX / 4) by (nonlinear_arith)
            requires w * h * 4 <= u32::MAX, w >= 1, h >= 1;
        lemma_spans(sx, sy, wi, hi);
    }
    let idx1 = save_hbar(fb, save, start_x, start_y);
    let idx2 = save_vbar(fb, save, start_x, start_y, idx1);
    let ghost n = n_saved(sx, sy, wi, hi);
    proof {
        vstd::arithmetic::div_mod::lemma_fundamental_div_mod_converse((1 + 5 * n) as int, 5, n, 1);
    }
    let ghost b2 = save.buf@;
    save.buf.set(0, (idx2 / 5) as u32);
    proof {
        assert forall|k: int| 1 <= k <= save.buf@[0] implies #[trigger] save.buf@[5 * k - 4] + 4 <= fb.data@.len() by {
            let (px, py) = saved_pixel(sx, sy, wi, hi, k - 1);
            assert(b2[1 + 5 * (k - 1)] == offset(px, py, wi));
            lemma_pixel_offset(px, py, wi, hi);
        }
        assert forall|e2: int| 0 <= e2 < n implies {
            let (px, py) = #[trigger] saved_pixel(sx, sy, wi, hi, e2);
            let off = offset(px, py, wi);
            &&& save.buf@[1 + 5 * e2] == off
            &&& save.buf@[2 + 5 * e2] == r[off + 2]
            &&& save.buf@[3 + 5 * e2] == r[off + 1]
            &&& save.buf@[4 + 5 * e2] == r[off]
            &&& save.buf@[5 + 5 * e2] == r[off + 3]
        } by {
            assert(b2[1 + 5 * e2] == save.buf@[1 + 5 * e2]);
        }
        assert forall|j: int| 1 + 5 * n <= j < CURSOR_WORDS implies #[trigger] save.buf@[j] == old(save).buf@[j] by {
            assert(b2[j] == save.buf@[j]);
        }
    }
    let hx0 = if start_x >= 10 { start_x - 10 } else { 0 };
    let hy0 = if start_y >= 1 { start_y - 1 } else { 0 };
    let vx0 = if start_x >= 1 { start_x - 1 } else { 0 };
    let vy0 = if start_y >= 10 { start_y - 10 } else { 0 };
    let hlen = if 21 < start_x + 10 { 21 } else { start_x + 10 };
    let vlen = if 21 < start_y + 10 { 21 } else { start_y + 10 };
    draw_line(fb, DIRECTION::Horizontal, hx0, hy0, hlen, Color { red: 0, green: 0, blue: 0 }, 255, 3);
    draw_line(fb, DIRECTION::Vertical, vx0, vy0, vlen, Color { red: 0, green: 0, blue: 0 }, 255, 3);
}

/// One more pixel saved as entry `e` keeps the entries below `e` and makes
/// entry `e` right, and leaves the words after it alone.
proof fn lemma_save_step(
    b1: Seq<u32>,
    b2: Seq<u32>,
    buf0: Seq<u32>,
    r: Seq<u8>,
    sx: int,
    sy: int,
    w: int,
    h: int,
    e: int,
    x: int,
    y: int,
)
    requires
        b1.len() == CURSOR_WORDS,
        0 <= e,
        1 + 5 * e + 5 <= CURSOR_WORDS,
        0 <= x < w,
        0 <= y < h,
        r.len() == w * h * 4,
        w * h * 4 <= u32::MAX,
        saved_pixel(sx, sy, w, h, e) == (x, y),
        entries_ok(b1, r, sx, sy, w, h, e),
        forall|j: int| 1 + 5 * e <= j < CURSOR_WORDS ==> #[trigger] b1[j] == buf0[j],
        ({
            let off = offset(x, y, w);
            b2 == b1.update(1 + 5 * e, off as u32).update(2 + 5 * e, r[off + 2] as u32).update(
                3 + 5 * e,
                r[off + 1] as u32,
            ).update(4 + 5 * e, r[off] as u32).update(5 + 5 * e, r[off + 3] as u32)
        }),
    ensures
        b2.len() == CURSOR_WORDS,
        entries_ok(b2, r, sx, sy, w, h, e + 1),
        forall|j: int| 1 + 5 * (e + 1) <= j < CURSOR_WORDS ==> #[trigger] b2[j] == buf0[j],
{
    let off = offset(x, y, w);
    lemma_pixel_offset(x, y, w, h);
    assert(b2[1 + 5 * e] == off);
    assert forall|e2: int| 0 <= e2 < e + 1 implies {
        let (px, py) = #[trigger] saved_pixel(sx, sy, w, h, e2);
        let o = offset(px, py, w);
        &&& b2[1 + 5 * e2] == o
        &&& b2[2 + 5 * e2] == r[o + 2]
        &&& b2[3 + 5 * e2] == r[o + 1]
        &&& b2[4 + 5 * e2] == r[o]
        &&& b2[5 + 5 * e2] == r[o + 3]
        &&& 0 <= px < w
        &&& 0 <= py < h
    } by {
        if e2 < e {
            let (px, py) = saved_pixel(sx, sy, w, h, e2);
            assert(b2[1 + 5 * e2] == b1[1 + 5 * e2]);
            assert(b2[2 + 5 * e2] == b1[2 + 5 * e2]);
            assert(b2[3 + 5 * e2] == b1[3 + 5 * e2]);
            assert(b2[4 + 5 * e2] == b1[4 + 5 * e2]);
            assert(b2[5 + 5 * e2] == b1[5 + 5 * e2]);
        }
    }
    assert forall|j: int| 1 + 5 * (e + 1) <= j < CURSOR_WORDS implies #[trigger] b2[j] == buf0[j] by {
        assert(b2[j] == b1[j]);
    }
}

/// Byte `i` belongs to one of the first `k` pixels saved in `buf`.
pub open spec fn covered(buf: Seq<u32>, k: int, i: int) -> bool {
    exists|e: int| 0 <= e < k && #[trigger] buf[1 + 5 * e] <= i < buf[1 + 5 * e] + 4
}

/// Entry `e` of `buf` saves the four bytes of `r` at its offset.
pub open spec fn entry_of(buf: Seq<u32>, r: Seq<u8>, e: int) -> bool {
    let off = buf[1 + 5 * e] as int;
    &&& off + 4 <= r.len()
    &&& buf[2 + 5 * e] == r[off + 2]
    &&& buf[3 + 5 * e] == r[off + 1]
    &&& buf[4 + 5 * e] == r[off]
    &&& buf[5 + 5 * e] == r[off + 3]
}

/// Putting back the first `k` saved pixels gives the bytes of `r` where
/// they lie and leaves the others.
proof fn lemma_restore_bytes(v: Seq<u8>, r: Seq<u8>, buf: Seq<u32>, k: int)
    requires
        0 <= k,
        5 * k + 1 <= buf.len(),
        v.len() == r.len(),
        forall|e: int| 0 <= e < k ==> #[trigger] entry_of(buf, r, e),
    ensures
        restore_spec(v, buf, k).len() == v.len(),
        forall|i: int| 0 <= i < v.len() ==> #[trigger] restore_spec(v, buf, k)[i] == if covered(buf, k, i) {
            r[i]
        } else {
            v[i]
        },
    decreases k,
{
    if k > 0 {
        lemma_restore_bytes(v, r, buf, k - 1);
        assert(entry_of(buf, r, k - 1));
        let off = buf[5 * k - 4] as int;
        assert(1 + 5 * (k - 1) == 5 * k - 4);
        assert forall|i: int| 0 <= i < v.len() implies #[trigger] restore_spec(v, buf, k)[i] == if covered(buf, k, i) {
            r[i]
        } else {
            v[i]
        } by {
            if off <= i < off + 4 {
                assert(buf[1 + 5 * (k - 1)] <= i < buf[1 + 5 * (k - 1)] + 4);
                assert(covered(buf, k, i));
            } else {
                if covered(buf, k, i) {
                    let e = choose|e: int| 0 <= e < k && #[trigger] buf[1 + 5 * e] <= i < buf[1 + 5 * e] + 4;
                    assert(e != k - 1);
                    assert(covered(buf, k - 1, i));
                }
                if covered(buf, k - 1, i) {
                    let e = choose|e: int| 0 <= e < k - 1 && #[trigger] buf[1 + 5 * e] <= i < buf[1 + 5 * e] + 4;
                    assert(covered(buf, k, i));
                }
            }
        }
    }
}

/// A byte that the cross changes belongs to a saved pixel.
proof fn lemma_cross_covered(r: Seq<u8>, buf: Seq<u32>, buf0: Seq<u32>, sx: int, sy: int, w: int, h: int, i: int)
    requires
        1 <= sx < w,
        1 <= sy < h,
        r.len() == w * h * 4,
        0 <= i < r.len(),
        saved_ok(buf, buf0, r, sx, sy, w, h),
        cross_spec(r, sx, sy, w, h)[i] != r[i],
    ensures
        covered(buf, n_saved(sx, sy, w, h), i),
{
    let (hx0, hx1, hy0, hy1) = hbar(sx, sy, w, h);
    let (vx0, vx1, vy0, vy1) = vbar(sx, sy, w, h);
    let hl = min_int(21, sx + 10);
    let vl = min_int(21, sy + 10);
    let (hw, hh) = line_box(DIRECTION::Horizontal, w, h, hx0, hy0, hl, 3);
    let (vw, vh) = line_box(DIRECTION::Vertical, w, h, vx0, vy0, vl, 3);
    let v1 = line_spec(r, w, h, DIRECTION::Horizontal, hx0, hy0, hl, cursor_black(), 255, 3);
    let q = i / 4;
    let col = col_of(i, w);
    let row = row_of(i, w);
    vstd::arithmetic::div_mod::lemma_fundamental_div_mod(q, w);
    assert(0 <= col < w);
    assert(0 <= row < h) by (nonlinear_arith)
        requires q == w * row + col, 0 <= col < w, 0 <= q, q < w * h, w >= 1;
    assert(q * 4 <= i < q * 4 + 4);
    assert(offset(col, row, w) == 4 * q);
    lemma_spans(sx, sy, w, h);
    let nh = n_hbar(sx, sy, w, h);
    if in_rect(i, w, vx0, vy0, vw, vh) {
        let vrows = vy1 + 1 - vy0;
        assert(vrows == span(vy0, vy1));
        let e2 = (col - vx0) * vrows + (row - vy0);
        lemma_lex_bound(col - vx0, row - vy0, span(vx0, vx1), vrows);
        lemma_div_mod_exact(e2, vrows, col - vx0, row - vy0);
        let e = nh + e2;
        assert(saved_pixel(sx, sy, w, h, e) == (col, row));
        assert(buf[1 + 5 * e] <= i < buf[1 + 5 * e] + 4);
    } else {
        assert(v1[i] != r[i]);
        assert(in_rect(i, w, hx0, hy0, hw, hh));
        let hcols = hx1 + 1 - hx0;
        assert(hcols == span(hx0, hx1));
        let e = (row - hy0) * hcols + (col - hx0);
        lemma_lex_bound(row - hy0, col - hx0, span(hy0, hy1), hcols);
        assert(span(hy0, hy1) * hcols == hcols * span(hy0, hy1)) by (nonlinear_arith);
        lemma_div_mod_exact(e, hcols, row - hy0, col - hx0);
        assert(saved_pixel(sx, sy, w, h, e) == (col, row));
        assert(buf[1 + 5 * e] <= i < buf[1 + 5 * e] + 4);
    }
}

/// Moving the cursor leaves no trace: putting back the pixels saved when
/// the cross was drawn at `(sx, sy)` gives back the screen as it was
/// before the cross.
pub proof fn lemma_cursor_leaves_no_trace(r: Seq<u8>, buf0: Seq<u32>, buf: Seq<u32>, sx: int, sy: int, w: int, h: int)
    requires
        1 <= sx < w,
        1 <= sy < h,
        r.len() == w * h * 4,
        w * h * 4 <= u32::MAX,
        saved_ok(buf, buf0, r, sx, sy, w, h),
    ensures
        restore_spec(cross_spec(r, sx, sy, w, h), buf, buf[0] as int) == r,
{
    let n = n_saved(sx, sy, w, h);
    let v = cross_spec(r, sx, sy, w, h);
    lemma_spans(sx, sy, w, h);
    assert forall|e: int| 0 <= e < n implies #[trigger] entry_of(buf, r, e) by {
        let (x, y) = saved_pixel(sx, sy, w, h, e);
        let off = offset(x, y, w);
        assert(buf[1 + 5 * e] == off);
        assert(0 <= x < w && 0 <= y < h) by {
            let (hx0, hx1, hy0, hy1) = hbar(sx, sy, w, h);
            let (vx0, vx1, vy0, vy1) = vbar(sx, sy, w, h);
            if e < n_hbar(sx, sy, w, h) {
                let hc = span(hx0, hx1);
                assert(hc > 0) by (nonlinear_arith)
                    requires e < hc * span(hy0, hy1), e >= 0, hc >= 0, span(hy0, hy1) >= 0;
                vstd::arithmetic::div_mod::lemma_fundamental_div_mod(e, hc);
                assert(e / hc < span(hy0, hy1)) by (nonlinear_arith)
                    requires e < hc * span(hy0, hy1), e == hc * (e / hc) + e % hc, 0 <= e % hc < hc, hc > 0;
            } else {
                let vr = span(vy0, vy1);
                let e2 = e - n_hbar(sx, sy, w, h);
                assert(vr > 0) by (nonlinear_arith)
                    requires e2 < span(vx0, vx1) * vr, e2 >= 0, vr >= 0, span(vx0, vx1) >= 0;
                vstd::arithmetic::div_mod::lemma_fundamental_div_mod(e2, vr);
                assert(e2 / vr < span(vx0, vx1)) by (nonlinear_arith)
                    requires e2 < span(vx0, vx1) * vr, e2 == vr * (e2 / vr) + e2 % vr, 0 <= e2 % vr < vr, vr > 0;
            }
        }
        lemma_pixel_offset(x, y, w, h);
    }
    lemma_restore_bytes(v, r, buf, n);
    assert(restore_spec(v, buf, n) =~= r) by {
        assert forall|i: int| 0 <= i < r.len() implies #[trigger] restore_spec(v, buf, n)[i] == r[i] by {
            if !covered(buf, n, i) && v[i] != r[i] {
                lemma_cross_covered(r, buf, buf0, sx, sy, w, h, i);
            }
        }
    }
}

/// Byte `i` belongs to a pixel of the cross around `(sx, sy)`: the rows
/// `sy - 1 ..= sy + 1` of the columns `sx - 10 ..= sx + 10`, or the columns
/// `sx - 1 ..= sx + 1` of the rows `sy - 10 ..= sy + 10`, cut at the edges
/// of the screen.
pub open spec fn in_cross(i: int, sx: int, sy: int, w: int, h: int) -> bool {
    let (hx0, hx1, hy0, hy1) = hbar(sx, sy, w, h);
    let (vx0, vx1, vy0, vy1) = vbar(sx, sy, w, h);
    ||| hx0 <= col_of(i, w) <= hx1 && hy0 <= row_of(i, w) <= hy1
    ||| vx0 <= col_of(i, w) <= vx1 && vy0 <= row_of(i, w) <= vy1
}

/// Moving the cursor leaves no trace: once the cross was drawn at
/// `(x1, y1)` over the screen `r` with the pixels under it saved in `buf`,
/// moving it to `(x2, y2)` (putting the saved pixels back, then drawing
/// the cross there) leaves every byte of `r` outside the new cross as it
/// was.
pub proof fn lemma_cursor_move(
    r: Seq<u8>,
    buf0: Seq<u32>,
    buf: Seq<u32>,
    x1: int,
    y1: int,
    x2: int,
    y2: int,
    w: int,
    h: int,
)
    requires
        1 <= x1 < w,
        1 <= y1 < h,
        1 <= x2 < w,
        1 <= y2 < h,
        r.len() == w * h * 4,
        w * h * 4 <= u32::MAX,
        saved_ok(buf, buf0, r, x1, y1, w, h),
    ensures
        ({
            let after = cross_spec(restore_spec(cross_spec(r, x1, y1, w, h), buf, buf[0] as int), x2, y2, w, h);
            &&& after.len() == r.len()
            &&& forall|i: int| 0 <= i < r.len() && !in_cross(i, x2, y2, w, h) ==> #[trigger] after[i] == r[i]
        }),
{
    lemma_cursor_leaves_no_trace(r, buf0, buf, x1, y1, w, h);
}

proof fn lemma_lex_bound(a: int, b: int, n: int, m: int)
    requires
        0 <= a < n,
        0 <= b < m,
    ensures
        0 <= a * m + b < n * m,
{
    assert(0 <= a * m + b < n * m) by (nonlinear_arith)
        requires 0 <= a < n, 0 <= b < m;
}

/// `x` is `q * d + r` for `0 <= r < d`.
proof fn lemma_div_mod_exact(x: int, d: int, q: int, r: int)
    requires
        d > 0,
        0 <= r < d,
        x == q * d + r,
    ensures
        x / d == q,
        x % d == r,
{
    vstd::arithmetic::div_mod::lemma_fundamental_div_mod_converse(x, d, q, r);
}

} // verus!
