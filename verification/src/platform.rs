//! Where a window without a frame can be taken hold of.

use vstd::prelude::*;

verus! {

/// The part of a window at a place.
#[derive(Clone, Copy, PartialEq, Eq, Debug, Structural)]
pub enum HitZone {
    Inside,
    Left,
    Right,
    Top,
    Bottom,
    TopLeft,
    TopRight,
    BottomLeft,
    BottomRight,
}

/// How wide the edge is at which a window is taken hold of.
pub const BORDER: i64 = 8;

/// A number of sixteen bits with a sign.
pub open spec fn signed16(n: int) -> int {
    if n >= 0x8000 {
        n - 0x10000
    } else {
        n
    }
}

/// The place that a message of the system speaks of: its lower sixteen bits and the next sixteen,
/// each with a sign.
pub fn message_point(lparam: u64) -> (out: (i32, i32))
    ensures
        out.0 == signed16(lparam as int % 0x10000),
        out.1 == signed16(lparam as int / 0x10000 % 0x10000),
{
    let x: u64 = lparam % 0x10000;
    let y: u64 = lparam / 0x10000 % 0x10000;
    let sx: i32 = if x >= 0x8000 {
        x as i32 - 0x10000
    } else {
        x as i32
    };
    let sy: i32 = if y >= 0x8000 {
        y as i32 - 0x10000
    } else {
        y as i32
    };
    (sx, sy)
}

/// The edges of a window.
#[derive(Clone, Copy, PartialEq, Eq, Debug, Structural)]
pub struct Edges {
    pub left: i32,
    pub top: i32,
    pub right: i32,
    pub bottom: i32,
}

/// Which part of a window a place is in. In a window so small that a place is near both of two
/// opposite edges, the upper and the left one count.
pub open spec fn zone(x: int, y: int, e: Edges) -> HitZone {
    let top = y - e.top < BORDER;
    let bottom = y - e.top >= e.bottom - e.top - BORDER;
    let left = x - e.left < BORDER;
    let right = x - e.left >= e.right - e.left - BORDER;
    if top && left {
        HitZone::TopLeft
    } else if top && right {
        HitZone::TopRight
    } else if bottom && left {
        HitZone::BottomLeft
    } else if bottom && right {
        HitZone::BottomRight
    } else if top {
        HitZone::Top
    } else if bottom {
        HitZone::Bottom
    } else if left {
        HitZone::Left
    } else if right {
        HitZone::Right
    } else {
        HitZone::Inside
    }
}

/// Which part of a window a place is in.
pub fn hit_zone(x: i32, y: i32, e: Edges) -> (out: HitZone)
    ensures
        out == zone(x as int, y as int, e),
{
    let local_x: i64 = x as i64 - e.left as i64;
    let local_y: i64 = y as i64 - e.top as i64;
    let width: i64 = e.right as i64 - e.left as i64;
    let height: i64 = e.bottom as i64 - e.top as i64;
    let top: bool = local_y < BORDER;
    let bottom: bool = local_y >= height - BORDER;
    let left: bool = local_x < BORDER;
    let right: bool = local_x >= width - BORDER;
    if top && left {
        HitZone::TopLeft
    } else if top && right {
        HitZone::TopRight
    } else if bottom && left {
        HitZone::BottomLeft
    } else if bottom && right {
        HitZone::BottomRight
    } else if top {
        HitZone::Top
    } else if bottom {
        HitZone::Bottom
    } else if left {
        HitZone::Left
    } else if right {
        HitZone::Right
    } else {
        HitZone::Inside
    }
}

/// The inside of a window is what is left of it within its edges.
pub proof fn law_inside(x: int, y: int, e: Edges)
    ensures
        zone(x, y, e) == HitZone::Inside <==> e.left + BORDER <= x < e.right - BORDER && e.top
            + BORDER <= y < e.bottom - BORDER,
{
}

/// Read with a sign, a number of sixteen bits differs from what it was by a multiple of 65536 and
/// lies within half of that around 0.
pub proof fn law_signed16(n: int)
    requires
        0 <= n < 0x10000,
    ensures
        -0x8000 <= signed16(n) < 0x8000,
        (n - signed16(n)) % 0x10000 == 0,
{
}

/// In a window that is not too small a place within eight points of one edge belongs to it, and
/// within eight points of two edges to the corner between them.
pub proof fn law_edges(x: int, y: int, e: Edges)
    requires
        e.left + 16 <= e.right,
        e.top + 16 <= e.bottom,
    ensures
        ({
            let near_left = x < e.left + 8;
            let near_right = x >= e.right - 8;
            let near_top = y < e.top + 8;
            let near_bottom = y >= e.bottom - 8;
            let z = zone(x, y, e);
            &&& z == HitZone::TopLeft <==> near_top && near_left
            &&& z == HitZone::TopRight <==> near_top && near_right
            &&& z == HitZone::BottomLeft <==> near_bottom && near_left
            &&& z == HitZone::BottomRight <==> near_bottom && near_right
            &&& z == HitZone::Top <==> near_top && !near_left && !near_right
            &&& z == HitZone::Bottom <==> near_bottom && !near_left && !near_right
            &&& z == HitZone::Left <==> near_left && !near_top && !near_bottom
            &&& z == HitZone::Right <==> near_right && !near_top && !near_bottom
        }),
{
}

/// Where a window is on the screen does not matter: a place that is moved along with it stays in
/// the same part of it.
pub proof fn law_moved_window(x: int, y: int, e: Edges, f: Edges, dx: int, dy: int)
    requires
        f.left == e.left + dx,
        f.right == e.right + dx,
        f.top == e.top + dy,
        f.bottom == e.bottom + dy,
    ensures
        zone(x + dx, y + dy, f) == zone(x, y, e),
{
}

} // verus!
