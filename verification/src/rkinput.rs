//! The plain input handler of the platform: keys move the mouse cursor and
//! the selection square.
use vstd::prelude::*;
use crate::sudoku_input::{
    InputEvent, is_press, back, forth, KEY_UP, KEY_DOWN, KEY_LEFT, KEY_RIGHT, KEY_PAGEUP,
    KEY_PAGEDOWN, KEY_HOME, KEY_END, KEY_W, KEY_S, KEY_A, KEY_D, SHORT_STEP, LONG_STEP,
};

verus! {

/// Distance between two positions of the selection square.
pub const SELECT_STEP: u32 = 75;
/// The selection square moves down or right only from below this value.
pub const SELECT_LIMIT: u32 = 600;

/// The positions the handler keeps between events.
#[derive(Clone, Copy)]
pub struct PointerState {
    pub cursor_x: u32,
    pub cursor_y: u32,
    pub select_x: u32,
    pub select_y: u32,
}

impl PointerState {
    /// The positions at start: the cursor at `(100, 100)`, the selection at
    /// `(1, 1)`.
    pub fn new() -> (s: PointerState)
        ensures
            s == (PointerState { cursor_x: 100, cursor_y: 100, select_x: 1, select_y: 1 }),
    {
        PointerState { cursor_x: 100, cursor_y: 100, select_x: 1, select_y: 1 }
    }
}

/// The keys that move the cursor towards larger coordinates need the screen
/// to be at least one step wide in that direction.
pub open spec fn pointer_fits(ev: InputEvent, width: u32, height: u32) -> bool {
    is_press(ev) ==> {
        &&& ev.code == KEY_DOWN ==> height >= SHORT_STEP
        &&& ev.code == KEY_RIGHT ==> width >= SHORT_STEP
        &&& ev.code == KEY_PAGEDOWN ==> height >= LONG_STEP
        &&& ev.code == KEY_END ==> width >= LONG_STEP
    }
}

/// The positions after the event.
pub open spec fn next_pointer(s: PointerState, ev: InputEvent, width: u32, height: u32) -> PointerState {
    if !is_press(ev) {
        s
    } else if ev.code == KEY_UP {
        PointerState { cursor_y: back(s.cursor_y, SHORT_STEP), ..s }
    } else if ev.code == KEY_DOWN {
        PointerState { cursor_y: forth(s.cursor_y, SHORT_STEP, height), ..s }
    } else if ev.code == KEY_LEFT {
        PointerState { cursor_x: back(s.cursor_x, SHORT_STEP), ..s }
    } else if ev.code == KEY_RIGHT {
        PointerState { cursor_x: forth(s.cursor_x, SHORT_STEP, width), ..s }
    } else if ev.code == KEY_PAGEUP {
        PointerState { cursor_y: back(s.cursor_y, LONG_STEP), ..s }
    } else if ev.code == KEY_PAGEDOWN {
        PointerState { cursor_y: forth(s.cursor_y, LONG_STEP, height), ..s }
    } else if ev.code == KEY_HOME {
        PointerState { cursor_x: back(s.cursor_x, LONG_STEP), ..s }
    } else if ev.code == KEY_END {
        PointerState { cursor_x: forth(s.cursor_x, LONG_STEP, width), ..s }
    } else if ev.code == KEY_W {
        PointerState { select_y: back(s.select_y, SELECT_STEP), ..s }
    } else if ev.code == KEY_S && s.select_y < SELECT_LIMIT {
        PointerState { select_y: (s.select_y + SELECT_STEP) as u32, ..s }
    } else if ev.code == KEY_A {
        PointerState { select_x: back(s.select_x, SELECT_STEP), ..s }
    } else if ev.code == KEY_D && s.select_x < SELECT_LIMIT {
        PointerState { select_x: (s.select_x + SELECT_STEP) as u32, ..s }
    } else {
        s
    }
}

/// What a key press does, spelled out key by key: W and A move the
/// selection square 75 pixels toward 0 while it is more than 75 away from
/// 0, S and D 75 pixels toward 600 while it is below 600, and never the
/// other way; the arrow keys move the cursor by 1 and page up/down, home
/// and end by 20, up and left only while that leaves it above the step,
/// down and right only while that leaves it below the edge less the step.
/// Each key moves one coordinate; an event that is not a key press moves
/// nothing.
pub proof fn lemma_pointer_keys(s: PointerState, ev: InputEvent, width: u32, height: u32)
    requires
        pointer_fits(ev, width, height),
    ensures
        ({
            let t = next_pointer(s, ev, width, height);
            let press = ev.event_type == 1 && ev.value == 1;
            &&& !press ==> t == s
            &&& press && ev.code == 30 ==> t.select_x <= s.select_x
                && t.select_x == (if s.select_x > 75 { s.select_x - 75 } else { s.select_x as int })
                && t.cursor_x == s.cursor_x && t.cursor_y == s.cursor_y && t.select_y == s.select_y
            &&& press && ev.code == 32 ==> t.select_x >= s.select_x
                && t.select_x == (if s.select_x < 600 { s.select_x + 75 } else { s.select_x as int })
                && t.cursor_x == s.cursor_x && t.cursor_y == s.cursor_y && t.select_y == s.select_y
            &&& press && ev.code == 17 ==> t.select_y <= s.select_y
                && t.select_y == (if s.select_y > 75 { s.select_y - 75 } else { s.select_y as int })
                && t.cursor_x == s.cursor_x && t.cursor_y == s.cursor_y && t.select_x == s.select_x
            &&& press && ev.code == 31 ==> t.select_y >= s.select_y
                && t.select_y == (if s.select_y < 600 { s.select_y + 75 } else { s.select_y as int })
                && t.cursor_x == s.cursor_x && t.cursor_y == s.cursor_y && t.select_x == s.select_x
            &&& press && (ev.code == 103 || ev.code == 104 || ev.code == 108 || ev.code == 109) ==>
                t.cursor_x == s.cursor_x && t.select_x == s.select_x && t.select_y == s.select_y
            &&& press && (ev.code == 102 || ev.code == 105 || ev.code == 106 || ev.code == 107) ==>
                t.cursor_y == s.cursor_y && t.select_x == s.select_x && t.select_y == s.select_y
            &&& press && ev.code == 103 ==> t.cursor_y == (if s.cursor_y > 1 { s.cursor_y - 1 } else { s.cursor_y as int })
            &&& press && ev.code == 108 ==> t.cursor_y == (if s.cursor_y + 1 < height { s.cursor_y + 1 } else { s.cursor_y as int })
            &&& press && ev.code == 105 ==> t.cursor_x == (if s.cursor_x > 1 { s.cursor_x - 1 } else { s.cursor_x as int })
            &&& press && ev.code == 106 ==> t.cursor_x == (if s.cursor_x + 1 < width { s.cursor_x + 1 } else { s.cursor_x as int })
            &&& press && ev.code == 104 ==> t.cursor_y == (if s.cursor_y > 20 { s.cursor_y - 20 } else { s.cursor_y as int })
            &&& press && ev.code == 109 ==> t.cursor_y == (if s.cursor_y + 20 < height { s.cursor_y + 20 } else { s.cursor_y as int })
            &&& press && ev.code == 102 ==> t.cursor_x == (if s.cursor_x > 20 { s.cursor_x - 20 } else { s.cursor_x as int })
            &&& press && ev.code == 107 ==> t.cursor_x == (if s.cursor_x + 20 < width { s.cursor_x + 20 } else { s.cursor_x as int })
            &&& press && !(ev.code == 17 || ev.code == 30 || ev.code == 31 || ev.code == 32 || ev.code == 102
                || ev.code == 103 || ev.code == 104 || ev.code == 105 || ev.code == 106 || ev.code == 107
                || ev.code == 108 || ev.code == 109) ==> t == s
        }),
{
}

/// Handles one input event on a screen of `width` by `height` pixels: the
/// arrow keys, page up/down, home and end move the cursor, W, A, S and D
/// the selection square.  Returns whether a key was pressed, after which
/// the cursor and the selection square are drawn again.
pub fn input_handler(state: &mut PointerState, ev: InputEvent, width: u32, height: u32) -> (redraw: bool)
    requires
        pointer_fits(ev, width, height),
    ensures
        *final(state) == next_pointer(*old(state), ev, width, height),
        redraw == is_press(ev),
{
    if !(ev.event_type == crate::sudoku_input::EV_KEY && ev.value == 1) {
        return false;
    }
    let code = ev.code;
    if code == KEY_UP {
        if state.cursor_y > SHORT_STEP {
            state.cursor_y = state.cursor_y - SHORT_STEP;
        }
    } else if code == KEY_DOWN {
        if state.cursor_y < height - SHORT_STEP {
            state.cursor_y = state.cursor_y + SHORT_STEP;
        }
    } else if code == KEY_LEFT {
        if state.cursor_x > SHORT_STEP {
            state.cursor_x = state.cursor_x - SHORT_STEP;
        }
    } else if code == KEY_RIGHT {
        if state.cursor_x < width - SHORT_STEP {
            state.cursor_x = state.cursor_x + SHORT_STEP;
        }
    } else if code == KEY_PAGEUP {
        if state.cursor_y > LONG_STEP {
            state.cursor_y = state.cursor_y - LONG_STEP;
        }
    } else if code == KEY_PAGEDOWN {
        if state.cursor_y < height - LONG_STEP {
            state.cursor_y = state.cursor_y + LONG_STEP;
        }
    } else if code == KEY_HOME {
        if state.cursor_x > LONG_STEP {
            state.cursor_x = state.cursor_x - LONG_STEP;
        }
    } else if code == KEY_END {
        if state.cursor_x < width - LONG_STEP {
            state.cursor_x = state.cursor_x + LONG_STEP;
        }
    } else if code == KEY_W {
        if state.select_y > SELECT_STEP {
            state.select_y = state.select_y - SELECT_STEP;
        }
    } else if code == KEY_S {
        if state.select_y < SELECT_LIMIT {
            state.select_y = state.select_y + SELECT_STEP;
        }
    } else if code == KEY_A {
        if state.select_x > SELECT_STEP {
            state.select_x = state.select_x - SELECT_STEP;
        }
    } else if code == KEY_D {
        if state.select_x < SELECT_LIMIT {
            state.select_x = state.select_x + SELECT_STEP;
        }
    }
    true
}

} // verus!
