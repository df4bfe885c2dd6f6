use crate::machine::Tool;
use vstd::prelude::*;

verus! {

/// The cell that the cursor is on.
#[derive(Clone, Copy, Debug, PartialEq, Eq, Structural)]
pub struct CursorCell {
    pub x: i32,
    pub y: i32,
}

/// `v` held to the range from `lo` to `hi`.
pub open spec fn clamped(v: int, lo: int, hi: int) -> int {
    if v < lo {
        lo
    } else if v > hi {
        hi
    } else {
        v
    }
}

/// The step along one axis that two opposite keys ask for together.
pub open spec fn key_step(back: bool, forth: bool) -> int {
    (if forth { 1int } else { 0int }) - (if back { 1int } else { 0int })
}

fn moved(at: i32, back: bool, forth: bool, size: i32) -> (to: i32)
    requires
        size > 0,
    ensures
        to == clamped(at + key_step(back, forth), 0, size - 1),
{
    let mut v: i64 = at as i64;
    if back {
        v = v - 1;
    }
    if forth {
        v = v + 1;
    }
    if v < 0 {
        0
    } else if v > size as i64 - 1 {
        size - 1
    } else {
        v as i32
    }
}

/// Moves the cursor by the arrow keys pressed in this frame, one cell per key,
/// and holds it inside a `w` by `h` grid. Left and up count down, right and
/// down count up; opposite keys cancel.
pub fn cursor_input(
    cursor: CursorCell,
    left: bool,
    right: bool,
    up: bool,
    down: bool,
    w: i32,
    h: i32,
) -> (to: CursorCell)
    requires
        w > 0,
        h > 0,
    ensures
        to.x == clamped(cursor.x + key_step(left, right), 0, w - 1),
        to.y == clamped(cursor.y + key_step(up, down), 0, h - 1),
{
    CursorCell { x: moved(cursor.x, left, right, w), y: moved(cursor.y, up, down, h) }
}

/// The tool selected after this frame's digit keys: the highest digit pressed
/// wins, and with none pressed the selection stays.
pub open spec fn selected(current: Tool, digit1: bool, digit2: bool, digit3: bool) -> Tool {
    if digit3 {
        Tool::Stabilizer
    } else if digit2 {
        Tool::Sink
    } else if digit1 {
        Tool::Emitter
    } else {
        current
    }
}

/// Updates the selected tool from the digit keys pressed in this frame:
/// 1 selects the emitter, 2 the sink, 3 the stabilizer.
pub fn tool_input(current: Tool, digit1: bool, digit2: bool, digit3: bool) -> (tool: Tool)
    ensures
        tool == selected(current, digit1, digit2, digit3),
{
    let mut tool = current;
    if digit1 {
        tool = Tool::Emitter;
    }
    if digit2 {
        tool = Tool::Sink;
    }
    if digit3 {
        tool = Tool::Stabilizer;
    }
    tool
}

} // verus!
