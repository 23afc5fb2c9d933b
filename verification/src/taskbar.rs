//! Where the strip goes on the taskbar, and how much of the task list is left
//! beside it.

use crate::popup::Rect;
use crate::text;
use vstd::prelude::*;

verus! {

/// The resolution of the taskbar's screen, and what stands for one that is not
/// known.
pub fn dpi_or_default(d: i32) -> (r: u32)
    ensures
        r == (if d <= 0 {
            96
        } else {
            d as int
        }),
{
    if d <= 0 {
        96
    } else {
        d as u32
    }
}

/// Windows above the strip that are looked at.
pub const MOST_WINDOWS: usize = 513;

/// The taskbar is among the windows above the strip, nearest first, so that it
/// covers the strip.
pub fn covers(above: &Vec<usize>, tray: usize) -> (r: bool)
    ensures
        r == exists|i: int| 0 <= i < above@.len() && i < MOST_WINDOWS && #[trigger] above@[i] == tray,
{
    let mut i: usize = 0;
    while i < above.len() && i < MOST_WINDOWS
        invariant
            i <= above.len(),
            i <= MOST_WINDOWS,
            forall|j: int| 0 <= j < i ==> #[trigger] above@[j] != tray,
        decreases above.len() - i,
    {
        if above[i] == tray {
            return true;
        }
        i += 1;
    }
    false
}

/// The left side of the strip: at the left edge, or left of the notification
/// area (of the right edge where there is none), moved by the offset, but not
/// out of the taskbar.
pub open spec fn strip_x(client: Rect, notify: Option<i32>, width: int, left: bool, offset: int) -> int {
    let wanted = if left {
        client.left + offset
    } else {
        (match notify {
            Some(n) => n,
            None => client.right,
        }) - width - offset
    };
    if wanted > client.left {
        wanted
    } else {
        client.left as int
    }
}

/// `r` is the part of the taskbar that the strip takes.
pub open spec fn is_placed(
    client: Rect,
    notify: Option<i32>,
    width: i32,
    left: bool,
    offset: i32,
    r: Rect,
) -> bool {
    &&& r.left == strip_x(client, notify, width as int, left, offset as int)
    &&& r.right == r.left + width
    &&& r.top == client.top
    &&& r.bottom == client.bottom
}

/// The part of the taskbar that the strip takes, in the taskbar's own
/// coordinates. `notify` is the left side of the notification area.
pub fn place(client: Rect, notify: Option<i32>, width: i32, position: &str, offset: i32) -> (r: Rect)
    requires
        strip_x(client, notify, width as int, position@ == "left"@, offset as int) <= i32::MAX,
        i32::MIN <= strip_x(client, notify, width as int, position@ == "left"@, offset as int)
            + width <= i32::MAX,
    ensures
        is_placed(client, notify, width, position@ == "left"@, offset, r),
{
    let left: bool = text::same(position, "left");
    let wanted: i64 = if left {
        client.left as i64 + offset as i64
    } else {
        let anchor: i32 = match notify {
            Some(n) => n,
            None => client.right,
        };
        anchor as i64 - width as i64 - offset as i64
    };
    let x: i32 = if wanted > client.left as i64 {
        wanted as i32
    } else {
        client.left
    };
    Rect { left: x, top: client.top, right: x + width, bottom: client.bottom }
}

/// The strip never begins left of the taskbar, and at the right it ends where
/// the notification area begins, as long as there is room.
pub proof fn law_strip_is_on_the_taskbar(client: Rect, notify: i32, width: int)
    requires
        notify - width >= client.left,
    ensures
        strip_x(client, Some(notify), width, false, 0) == notify - width,
        forall|p: bool, o: int|
            #[trigger] strip_x(client, Some(notify), width, p, o) >= client.left,
{
}

/// The left and right side that the task list should have beside the strip
/// (`original` is what it had without): it ends two pixels before the strip, or
/// begins two pixels behind it.
pub open spec fn task_list(strip: Rect, original: Rect, left: bool) -> (int, int) {
    if left {
        (
            if strip.right + 2 > original.left {
                strip.right + 2
            } else {
                original.left as int
            },
            original.right as int,
        )
    } else {
        (original.left as int, strip.left - 2)
    }
}

/// The rectangle that the task list gets, where it has to be moved.
pub open spec fn list_move(strip: Rect, original: Rect, current: Rect, left: bool) -> Option<Rect> {
    let want = task_list(strip, original, left);
    if (current.left as int, current.right as int) == want {
        None
    } else {
        Some(
            Rect {
                left: want.0 as i32,
                top: current.top,
                right: want.1 as i32,
                bottom: current.bottom,
            },
        )
    }
}

/// Where the task list has to be moved so that it does not run underneath the
/// strip; `None` where it is already there.
pub fn move_task_list(strip: Rect, original: Rect, current: Rect, position: &str) -> (r: Option<
    Rect,
>)
    requires
        strip.right + 2 <= i32::MAX,
        i32::MIN <= strip.left - 2,
    ensures
        r == list_move(strip, original, current, position@ == "left"@),
{
    let left: bool = text::same(position, "left");
    let want_right: i32 = if left {
        original.right
    } else {
        strip.left - 2
    };
    let want_left: i32 = if left {
        if strip.right + 2 > original.left {
            strip.right + 2
        } else {
            original.left
        }
    } else {
        original.left
    };
    if current.right != want_right || current.left != want_left {
        Some(
            Rect {
                left: want_left,
                top: current.top,
                right: want_right,
                bottom: current.bottom,
            },
        )
    } else {
        None
    }
}

/// A task list beside the strip does not overlap it.
pub proof fn law_task_list_stays_beside(strip: Rect, original: Rect, left: bool)
    ensures
        ({
            let want = task_list(strip, original, left);
            if left {
                want.0 >= strip.right
            } else {
                want.1 <= strip.left
            }
        }),
{
}

/// The strip is as wide as asked and as high as the taskbar. At the left it
/// stands its offset from the left edge; at the right it ends its offset before
/// the notification area, or before the right edge where there is none, while
/// there is room.
pub proof fn law_strip_stands_at_its_offset(
    client: Rect,
    notify: Option<i32>,
    width: i32,
    left: bool,
    offset: i32,
    r: Rect,
)
    requires
        is_placed(client, notify, width, left, offset, r),
    ensures
        r.right - r.left == width,
        r.top == client.top && r.bottom == client.bottom,
        r.left >= client.left,
        left && offset >= 0 ==> r.left - client.left == offset,
        !left ==> (notify matches Some(n) ==> (n - width - offset >= client.left ==> n - r.right
            == offset)),
        !left && notify.is_none() && client.right - width - offset >= client.left ==> client.right
            - r.right == offset,
{
}

/// The task list is moved only where it is not where it should be; beside a strip
/// at the right it ends two pixels before it and keeps its beginning, and beside
/// one at the left it begins two pixels behind it, or where it began, and keeps
/// its end. Its height stays.
pub proof fn law_task_list_makes_room(strip: Rect, original: Rect, current: Rect, left: bool)
    requires
        strip.right + 2 <= i32::MAX,
        i32::MIN <= strip.left - 2,
    ensures
        list_move(strip, original, current, left) matches Some(r) ==> {
            &&& r.top == current.top && r.bottom == current.bottom
            &&& !left ==> r.left == original.left && strip.left - r.right == 2
            &&& left ==> r.right == original.right && r.left >= strip.right + 2 && r.left
                >= original.left && (r.left == strip.right + 2 || r.left == original.left)
            &&& list_move(strip, original, r, left).is_none()
        },
        list_move(strip, original, current, left).is_none() && !left ==> current.left
            == original.left && strip.left - current.right == 2,
{
}

} // verus!
