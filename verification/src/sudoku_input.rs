//! The sudoku game's keyboard handling: a key press moves the mouse cursor,
//! moves the selected cell, or picks the number to write.
use vstd::prelude::*;

verus! {

/// Type of a key event.
pub const EV_KEY: u16 = 0x01;
/// Key codes.
pub const KEY_1: u16 = 2;
pub const KEY_9: u16 = 10;
pub const KEY_BACKSPACE: u16 = 14;
pub const KEY_W: u16 = 17;
pub const KEY_O: u16 = 24;
pub const KEY_A: u16 = 30;
pub const KEY_S: u16 = 31;
pub const KEY_D: u16 = 32;
pub const KEY_H: u16 = 35;
pub const KEY_HOME: u16 = 102;
pub const KEY_UP: u16 = 103;
pub const KEY_PAGEUP: u16 = 104;
pub const KEY_LEFT: u16 = 105;
pub const KEY_RIGHT: u16 = 106;
pub const KEY_END: u16 = 107;
pub const KEY_DOWN: u16 = 108;
pub const KEY_PAGEDOWN: u16 = 109;

/// Cursor step of the arrow keys.
pub const SHORT_STEP: u32 = 1;
/// Cursor step of page up/down, home and end.
pub const LONG_STEP: u32 = 20;
/// Side of a cell of the board, in pixels.
pub const CELL: u32 = 75;
/// The last position of the selection along either axis.
pub const SELECT_MAX: u32 = 600;
/// The pending number that means "nothing to do".
pub const NO_INPUT: usize = 200;
/// The pending number that the selection keys leave.
pub const SELECT_INPUT: usize = 100;

/// An event of the input device.
#[derive(Clone, Copy)]
pub struct InputEvent {
    pub event_type: u16,
    pub code: u16,
    pub value: u32,
}

/// What the key handler keeps between events.
#[derive(Clone, Copy)]
pub struct InputState {
    /// The mouse cursor.
    pub cursor_x: u32,
    pub cursor_y: u32,
    /// The top left corner of the selected cell.
    pub select_x: u32,
    pub select_y: u32,
    /// The number to write, 0 to erase, `KEY_H` for a hint, `KEY_O` for the
    /// solution, or another value for nothing.
    pub input_number: usize,
}

/// What the screen has to show after an event.
#[derive(Clone, Copy)]
pub enum InputAction {
    /// Nothing.
    Stay,
    /// The cursor is now at the given point.
    Cursor(u32, u32),
    /// The selection moved from the first point to the second.
    Select(u32, u32, u32, u32),
}

/// The cursor moves by `step` toward smaller coordinates when that keeps it
/// above `step`.
pub open spec fn back(v: u32, step: u32) -> u32 {
    if v > step { (v - step) as u32 } else { v }
}

/// The cursor moves by `step` toward larger coordinates when that keeps it
/// below `limit - step`.
pub open spec fn forth(v: u32, step: u32, limit: u32) -> u32 {
    if v < limit - step { (v + step) as u32 } else { v }
}

/// A key was pressed (not released, not repeated).
pub open spec fn is_press(ev: InputEvent) -> bool {
    ev.event_type == EV_KEY && ev.value == 1
}

/// The keys that move the cursor towards larger coordinates need the screen
/// to be at least one step wide in that direction.
pub open spec fn screen_fits(ev: InputEvent, width: u32, height: u32) -> bool {
    is_press(ev) ==> {
        &&& ev.code == KEY_DOWN ==> height >= SHORT_STEP
        &&& ev.code == KEY_RIGHT ==> width >= SHORT_STEP
        &&& ev.code == KEY_PAGEDOWN ==> height >= LONG_STEP
        &&& ev.code == KEY_END ==> width >= LONG_STEP
    }
}

/// The cursor after the event.
pub open spec fn next_cursor(s: InputState, ev: InputEvent, width: u32, height: u32) -> (u32, u32) {
    if !is_press(ev) {
        (s.cursor_x, s.cursor_y)
    } else if ev.code == KEY_UP {
        (s.cursor_x, back(s.cursor_y, SHORT_STEP))
    } else if ev.code == KEY_DOWN {
        (s.cursor_x, forth(s.cursor_y, SHORT_STEP, height))
    } else if ev.code == KEY_LEFT {
        (back(s.cursor_x, SHORT_STEP), s.cursor_y)
    } else if ev.code == KEY_RIGHT {
        (forth(s.cursor_x, SHORT_STEP, width), s.cursor_y)
    } else if ev.code == KEY_PAGEUP {
        (s.cursor_x, back(s.cursor_y, LONG_STEP))
    } else if ev.code == KEY_PAGEDOWN {
        (s.cursor_x, forth(s.cursor_y, LONG_STEP, height))
    } else if ev.code == KEY_HOME {
        (back(s.cursor_x, LONG_STEP), s.cursor_y)
    } else if ev.code == KEY_END {
        (forth(s.cursor_x, LONG_STEP, width), s.cursor_y)
    } else {
        (s.cursor_x, s.cursor_y)
    }
}

/// The selection after the event: one cell up, down, left or right with W,
/// S, A and D, within the board.
pub open spec fn next_select(s: InputState, ev: InputEvent) -> (u32, u32) {
    if !is_press(ev) {
        (s.select_x, s.select_y)
    } else if ev.code == KEY_W && s.select_y >= CELL {
        (s.select_x, (s.select_y - CELL) as u32)
    } else if ev.code == KEY_S && s.select_y < SELECT_MAX {
        (s.select_x, (s.select_y + CELL) as u32)
    } else if ev.code == KEY_A && s.select_x >= CELL {
        ((s.select_x - CELL) as u32, s.select_y)
    } else if ev.code == KEY_D && s.select_x < SELECT_MAX {
        ((s.select_x + CELL) as u32, s.select_y)
    } else {
        (s.select_x, s.select_y)
    }
}

/// The pending number after the event.
pub open spec fn next_input(s: InputState, ev: InputEvent) -> usize {
    if !is_press(ev) {
        s.input_number
    } else if ev.code == KEY_W || ev.code == KEY_S || ev.code == KEY_A || ev.code == KEY_D {
        SELECT_INPUT
    } else if ev.code == KEY_H || ev.code == KEY_O {
        ev.code as usize
    } else if KEY_1 <= ev.code <= KEY_9 {
        (ev.code - KEY_1 + 1) as usize
    } else if ev.code == KEY_BACKSPACE {
        0
    } else {
        s.input_number
    }
}

/// What a key press does, spelled out key by key: W and A move the
/// selection one cell (75 pixels) toward 0 when it is at least a cell away
/// from 0, S and D one cell toward 600 when it is below 600, and never the
/// other way; the arrow keys move the cursor by 1 and page up/down, home
/// and end by 20, up and left toward 0 only while that leaves it above the
/// step, down and right toward the screen's edge only while that leaves it
/// below the edge less the step; the selection keys leave 100 as the
/// pending number, digits their value, backspace 0, H and O their code.
/// An event that is not a key press changes nothing.
pub proof fn lemma_keys(s: InputState, ev: InputEvent, width: u32, height: u32)
    requires
        screen_fits(ev, width, height),
    ensures
        ({
            let (cx, cy) = next_cursor(s, ev, width, height);
            let (sx, sy) = next_select(s, ev);
            let n = next_input(s, ev);
            let press = ev.event_type == 1 && ev.value == 1;
            &&& !press ==> cx == s.cursor_x && cy == s.cursor_y && sx == s.select_x && sy == s.select_y && n == s.input_number
            &&& press && ev.code == 30 ==> sy == s.select_y && sx <= s.select_x
                && sx == (if s.select_x >= 75 { s.select_x - 75 } else { s.select_x as int }) && n == 100
            &&& press && ev.code == 32 ==> sy == s.select_y && sx >= s.select_x
                && sx == (if s.select_x < 600 { s.select_x + 75 } else { s.select_x as int }) && n == 100
            &&& press && ev.code == 17 ==> sx == s.select_x && sy <= s.select_y
                && sy == (if s.select_y >= 75 { s.select_y - 75 } else { s.select_y as int }) && n == 100
            &&& press && ev.code == 31 ==> sx == s.select_x && sy >= s.select_y
                && sy == (if s.select_y < 600 { s.select_y + 75 } else { s.select_y as int }) && n == 100
            &&& press && (ev.code == 17 || ev.code == 30 || ev.code == 31 || ev.code == 32) ==> cx == s.cursor_x && cy == s.cursor_y
            &&& press && !(ev.code == 17 || ev.code == 30 || ev.code == 31 || ev.code == 32) ==> sx == s.select_x && sy == s.select_y
            &&& press && ev.code == 103 ==> cx == s.cursor_x && cy == (if s.cursor_y > 1 { s.cursor_y - 1 } else { s.cursor_y as int })
            &&& press && ev.code == 108 ==> cx == s.cursor_x && cy == (if s.cursor_y + 1 < height { s.cursor_y + 1 } else { s.cursor_y as int })
            &&& press && ev.code == 105 ==> cy == s.cursor_y && cx == (if s.cursor_x > 1 { s.cursor_x - 1 } else { s.cursor_x as int })
            &&& press && ev.code == 106 ==> cy == s.cursor_y && cx == (if s.cursor_x + 1 < width { s.cursor_x + 1 } else { s.cursor_x as int })
            &&& press && ev.code == 104 ==> cx == s.cursor_x && cy == (if s.cursor_y > 20 { s.cursor_y - 20 } else { s.cursor_y as int })
            &&& press && ev.code == 109 ==> cx == s.cursor_x && cy == (if s.cursor_y + 20 < height { s.cursor_y + 20 } else { s.cursor_y as int })
            &&& press && ev.code == 102 ==> cy == s.cursor_y && cx == (if s.cursor_x > 20 { s.cursor_x - 20 } else { s.cursor_x as int })
            &&& press && ev.code == 107 ==> cy == s.cursor_y && cx == (if s.cursor_x + 20 < width { s.cursor_x + 20 } else { s.cursor_x as int })
            &&& press && !(ev.code == 102 || ev.code == 103 || ev.code == 104 || ev.code == 105 || ev.code == 106
                || ev.code == 107 || ev.code == 108 || ev.code == 109) ==> cx == s.cursor_x && cy == s.cursor_y
            &&& press && 2 <= ev.code <= 10 ==> n == ev.code - 1
            &&& press && ev.code == 14 ==> n == 0
            &&& press && (ev.code == 35 || ev.code == 24) ==> n == ev.code
        }),
{
}

/// The selection stays on the board: from the top left corner of a cell,
/// every event leaves it at the top left corner of a cell, and it moves by
/// at most one cell along one axis.
pub proof fn lemma_select_on_board(s: InputState, ev: InputEvent)
    requires
        s.select_x % 75 == 0 && s.select_x <= 600,
        s.select_y % 75 == 0 && s.select_y <= 600,
    ensures
        ({
            let (sx, sy) = next_select(s, ev);
            &&& sx % 75 == 0 && sx <= 600
            &&& sy % 75 == 0 && sy <= 600
            &&& (sx == s.select_x && (sy == s.select_y || sy == s.select_y + 75 || sy == s.select_y - 75))
                || (sy == s.select_y && (sx == s.select_x + 75 || sx == s.select_x - 75))
        }),
{
}

fn back_exec(v: u32, step: u32) -> (r: u32)
    ensures
        r == back(v, step),
{
    if v > step { v - step } else { v }
}

fn forth_exec(v: u32, step: u32, limit: u32) -> (r: u32)
    requires
        limit >= step,
    ensures
        r == forth(v, step, limit),
{
    if v < limit - step { v + step } else { v }
}

/// Handles one input event on a screen of `width` by `height` pixels:
/// arrow keys, page up/down, home and end move the cursor, W, A, S and D
/// the selection, digits, backspace, H and O set the pending number.  Says
/// what the screen has to show: the new cursor when a cursor key moved
/// it, the old and new selection when a selection key moved it.
pub fn input_handler(state: &mut InputState, ev: InputEvent, width: u32, height: u32) -> (act: InputAction)
    requires
        screen_fits(ev, width, height),
    ensures
        (final(state).cursor_x, final(state).cursor_y) == next_cursor(*old(state), ev, width, height),
        (final(state).select_x, final(state).select_y) == next_select(*old(state), ev),
        final(state).input_number == next_input(*old(state), ev),
        act == if (final(state).cursor_x, final(state).cursor_y) != (old(state).cursor_x, old(state).cursor_y) {
            InputAction::Cursor(final(state).cursor_x, final(state).cursor_y)
        } else if (final(state).select_x, final(state).select_y) != (old(state).select_x, old(state).select_y) {
            InputAction::Select(old(state).select_x, old(state).select_y, final(state).select_x, final(state).select_y)
        } else {
            InputAction::Stay
        },
{
    if !(ev.event_type == EV_KEY && ev.value == 1) {
        return InputAction::Stay;
    }
    let (ox, oy) = (state.select_x, state.select_y);
    let (cx, cy) = (state.cursor_x, state.cursor_y);
    let code = ev.code;
    if code == KEY_UP {
        state.cursor_y = back_exec(cy, SHORT_STEP);
    } else if code == KEY_DOWN {
        state.cursor_y = forth_exec(cy, SHORT_STEP, height);
    } else if code == KEY_LEFT {
        state.cursor_x = back_exec(cx, SHORT_STEP);
    } else if code == KEY_RIGHT {
        state.cursor_x = forth_exec(cx, SHORT_STEP, width);
    } else if code == KEY_PAGEUP {
        state.cursor_y = back_exec(cy, LONG_STEP);
    } else if code == KEY_PAGEDOWN {
        state.cursor_y = forth_exec(cy, LONG_STEP, height);
    } else if code == KEY_HOME {
        state.cursor_x = back_exec(cx, LONG_STEP);
    } else if code == KEY_END {
        state.cursor_x = forth_exec(cx, LONG_STEP, width);
    } else if code == KEY_W {
        if state.select_y >= CELL {
            state.select_y = state.select_y - CELL;
        }
        state.input_number = SELECT_INPUT;
    } else if code == KEY_S {
        if state.select_y < SELECT_MAX {
            state.select_y = state.select_y + CELL;
        }
        state.input_number = SELECT_INPUT;
    } else if code == KEY_A {
        if state.select_x >= CELL {
            state.select_x = state.select_x - CELL;
        }
        state.input_number = SELECT_INPUT;
    } else if code == KEY_D {
        if state.select_x < SELECT_MAX {
            state.select_x = state.select_x + CELL;
        }
        state.input_number = SELECT_INPUT;
    } else if code == KEY_H || code == KEY_O {
        state.input_number = code as usize;
    } else if KEY_1 <= code && code <= KEY_9 {
        state.input_number = (code - KEY_1 + 1) as usize;
    } else if code == KEY_BACKSPACE {
        state.input_number = 0;
    }
    if state.cursor_x != cx || state.cursor_y != cy {
        InputAction::Cursor(state.cursor_x, state.cursor_y)
    } else if state.select_x != ox || state.select_y != oy {
        InputAction::Select(ox, oy, state.select_x, state.select_y)
    } else {
        InputAction::Stay
    }
}

} // verus!
