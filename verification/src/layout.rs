//! How large the overlay is, and where on the desktop it appears.
use crate::coords::{self, CoordMapper, DesktopBounds, Monitor};
use crate::scaling;
use crate::text;
use vstd::prelude::*;

verus! {

/// The overlay takes at most one part in so many of the primary monitor, each way.
pub const OVERLAY_FRACTION: u32 = 4;

/// Maximum overlay width in pixels.
pub const MAX_OVERLAY_WIDTH: u32 = 1200;

/// Maximum overlay height in pixels.
pub const MAX_OVERLAY_HEIGHT: u32 = 800;

/// Border width around the thumbnail.
pub const BORDER_WIDTH: u32 = 2;

/// A part of an extent, rounded down, and no more than a maximum.
pub open spec fn limited(extent: u32, max: u32) -> int {
    if extent / OVERLAY_FRACTION < max {
        (extent / OVERLAY_FRACTION) as int
    } else {
        max as int
    }
}

/// The greatest width and height that a thumbnail may have, by the primary monitor.
pub fn thumbnail_limits(primary: &DesktopBounds) -> (r: (u32, u32))
    ensures
        r.0 == limited(primary.width, MAX_OVERLAY_WIDTH),
        r.1 == limited(primary.height, MAX_OVERLAY_HEIGHT),
{
    let w: u32 = primary.width / OVERLAY_FRACTION;
    let h: u32 = primary.height / OVERLAY_FRACTION;
    (
        if w < MAX_OVERLAY_WIDTH {
            w
        } else {
            MAX_OVERLAY_WIDTH
        },
        if h < MAX_OVERLAY_HEIGHT {
            h
        } else {
            MAX_OVERLAY_HEIGHT
        },
    )
}

/// The size that the thumbnail of a desktop has to fit, by the primary monitor.
pub open spec fn thumbnail_box(desktop: DesktopBounds, primary: DesktopBounds) -> (int, int) {
    scaling::fitted(
        desktop.width,
        desktop.height,
        limited(primary.width, MAX_OVERLAY_WIDTH) as u32,
        limited(primary.height, MAX_OVERLAY_HEIGHT) as u32,
    )
}

/// A picture of any size, scaled to the size that the thumbnail of a desktop has to fit,
/// stays within the maximum, and within that fraction of the primary monitor that the overlay
/// may take; of a monitor that is smaller than that fraction, it takes one pixel.
pub proof fn law_thumbnail_within_limits(d: DesktopBounds, m: DesktopBounds, w: u32, h: u32)
    ensures
        ({
            let (box_w, box_h) = thumbnail_box(d, m);
            let (tw, th) = scaling::fitted(w, h, box_w as u32, box_h as u32);
            &&& 1 <= tw <= box_w <= MAX_OVERLAY_WIDTH
            &&& 1 <= th <= box_h <= MAX_OVERLAY_HEIGHT
            &&& tw * OVERLAY_FRACTION <= m.width || tw == 1 && m.width < OVERLAY_FRACTION
            &&& th * OVERLAY_FRACTION <= m.height || th == 1 && m.height < OVERLAY_FRACTION
        }),
{
    let (max_w, max_h) = (
        limited(m.width, MAX_OVERLAY_WIDTH) as u32,
        limited(m.height, MAX_OVERLAY_HEIGHT) as u32,
    );
    scaling::law_fitted_fits(d.width, d.height, max_w, max_h);
    let (box_w, box_h) = thumbnail_box(d, m);
    scaling::law_fitted_fits(w, h, box_w as u32, box_h as u32);
}

/// Whether a position is on a monitor.
pub open spec fn on_monitor(m: Monitor, x: int, y: int) -> bool {
    m.x <= x < m.right() && m.y <= y < m.bottom()
}

/// The first monitor that a position is on, from the `from`th; the number of monitors if
/// it is on none.
pub open spec fn first_with(ms: Seq<Monitor>, x: int, y: int, from: int) -> int
    decreases ms.len() - from,
{
    if from >= ms.len() {
        ms.len() as int
    } else if on_monitor(ms[from], x, y) {
        from
    } else {
        first_with(ms, x, y, from + 1)
    }
}

/// The monitor that the overlay appears on: the first that the cursor is on, or the
/// first of all where it is on none.
pub open spec fn chosen_monitor(ms: Seq<Monitor>, x: int, y: int) -> int {
    let i = first_with(ms, x, y, 0);
    if i < ms.len() {
        i
    } else {
        0
    }
}

/// The index of the monitor that the overlay appears on.
pub fn cursor_monitor(monitors: &[Monitor], cursor_x: i32, cursor_y: i32) -> (r: usize)
    requires
        monitors@.len() > 0,
        coords::edges_fit(monitors@),
    ensures
        r < monitors@.len(),
        r == chosen_monitor(monitors@, cursor_x as int, cursor_y as int),
{
    let mut i: usize = 0;
    while i < monitors.len()
        invariant
            i <= monitors@.len(),
            monitors@.len() > 0,
            coords::edges_fit(monitors@),
            first_with(monitors@, cursor_x as int, cursor_y as int, 0) == first_with(
                monitors@,
                cursor_x as int,
                cursor_y as int,
                i as int,
            ),
        decreases monitors@.len() - i,
    {
        let m = &monitors[i];
        assert(coords::is_i32(monitors@[i as int].right()) && coords::is_i32(
            monitors@[i as int].bottom(),
        ));
        if cursor_x >= m.x && cursor_x < m.x + coords::to_i32(m.width) && cursor_y >= m.y && cursor_y
            < m.y + coords::to_i32(m.height) {
            return i;
        }
        i = i + 1;
    }
    0
}

/// The monitor that is chosen has the cursor on it, if any monitor has.
pub proof fn law_cursor_is_on_chosen(ms: Seq<Monitor>, x: int, y: int, i: int)
    requires
        0 <= i < ms.len(),
        on_monitor(ms[i], x, y),
    ensures
        0 <= chosen_monitor(ms, x, y) <= i,
        on_monitor(ms[chosen_monitor(ms, x, y)], x, y),
{
    lemma_first_with(ms, x, y, 0, i);
}

proof fn lemma_first_with(ms: Seq<Monitor>, x: int, y: int, from: int, i: int)
    requires
        0 <= from <= i < ms.len(),
        on_monitor(ms[i], x, y),
    ensures
        from <= first_with(ms, x, y, from) <= i,
        on_monitor(ms[first_with(ms, x, y, from)], x, y),
    decreases ms.len() - from,
{
    if !on_monitor(ms[from], x, y) {
        lemma_first_with(ms, x, y, from + 1, i);
    }
}

/// Half of an integer, rounded towards zero.
pub open spec fn halved(v: int) -> int {
    if v < 0 {
        -((-v) / 2)
    } else {
        v / 2
    }
}

/// How far into a monitor the overlay begins, one way: so far that the cursor is at its
/// middle, but no further than that it ends with the monitor, and not before the monitor.
pub open spec fn margin(cursor: i32, origin: i32, extent: u32, thumb: u32) -> int {
    let wanted = cursor - origin - halved(coords::wrapped_i32(thumb));
    let most = coords::wrapped_i32(extent) - coords::wrapped_i32(thumb);
    if wanted < 0 {
        0
    } else if wanted > most {
        most
    } else {
        wanted
    }
}

/// Whether an overlay can be placed on a monitor, one way: it is not larger than the
/// monitor, and all that is computed on the way is an `i32`.
pub open spec fn placeable(cursor: i32, origin: i32, extent: u32, thumb: u32) -> bool {
    let most = coords::wrapped_i32(extent) - coords::wrapped_i32(thumb);
    &&& coords::is_i32(cursor - origin)
    &&& coords::is_i32(cursor - origin - halved(coords::wrapped_i32(thumb)))
    &&& 0 <= most <= i32::MAX
    &&& coords::is_i32(origin + margin(cursor, origin, extent, thumb))
}

fn half(v: i32) -> (r: i32)
    ensures
        r == halved(v as int),
{
    if v >= 0 {
        v / 2
    } else {
        let n: i64 = -(v as i64);
        (-(n / 2)) as i32
    }
}

fn margin_of(cursor: i32, origin: i32, extent: u32, thumb: u32) -> (r: i64)
    ensures
        r == margin(cursor, origin, extent, thumb),
{
    let t: i32 = coords::to_i32(thumb);
    let wanted: i64 = cursor as i64 - origin as i64 - half(t) as i64;
    let most: i64 = coords::to_i32(extent) as i64 - t as i64;
    if wanted < 0 {
        0
    } else if wanted > most {
        most
    } else {
        wanted
    }
}

/// Whether an overlay can be placed on a monitor, one way.
pub fn can_place(cursor: i32, origin: i32, extent: u32, thumb: u32) -> (b: bool)
    ensures
        b == placeable(cursor, origin, extent, thumb),
{
    let (lo, hi): (i64, i64) = (i32::MIN as i64, i32::MAX as i64);
    let t: i32 = coords::to_i32(thumb);
    let local: i64 = cursor as i64 - origin as i64;
    let wanted: i64 = local - half(t) as i64;
    let most: i64 = coords::to_i32(extent) as i64 - t as i64;
    let at: i64 = origin as i64 + margin_of(cursor, origin, extent, thumb);
    lo <= local && local <= hi && lo <= wanted && wanted <= hi && 0 <= most && most <= hi && lo <= at
        && at <= hi
}

/// Where the overlay begins, one way, in the coordinates of the desktop: centered on the
/// cursor, and moved so that it is on the monitor.
pub fn overlay_position(cursor: i32, origin: i32, extent: u32, thumb: u32) -> (r: i32)
    requires
        placeable(cursor, origin, extent, thumb),
    ensures
        r == origin + margin(cursor, origin, extent, thumb),
{
    (origin as i64 + margin_of(cursor, origin, extent, thumb)) as i32
}

/// The overlay is wholly on the monitor.
pub proof fn law_overlay_on_monitor(cursor: i32, origin: i32, extent: u32, thumb: u32)
    requires
        thumb <= extent <= i32::MAX,
    ensures
        ({
            let at = origin + margin(cursor, origin, extent, thumb);
            origin <= at && at + thumb <= origin + extent
        }),
{
}

/// A cursor on the monitor is on the overlay when it appears.
pub proof fn law_cursor_on_overlay(cursor: i32, origin: i32, extent: u32, thumb: u32)
    requires
        0 < thumb <= extent <= i32::MAX,
        origin <= cursor < origin + extent,
    ensures
        ({
            let at = origin + margin(cursor, origin, extent, thumb);
            at <= cursor < at + thumb
        }),
{
}

/// Where the monitor leaves room on both sides, the cursor is at the middle of the overlay.
pub proof fn law_overlay_centered(cursor: i32, origin: i32, extent: u32, thumb: u32)
    requires
        thumb <= extent <= i32::MAX,
        origin + thumb / 2 <= cursor,
        cursor - thumb / 2 + thumb <= origin + extent,
    ensures
        origin + margin(cursor, origin, extent, thumb) + thumb / 2 == cursor,
{
}

/// An overlay that is not larger than the monitor can be placed on it, wherever on the
/// monitor the cursor is.
pub proof fn law_smaller_can_be_placed(cursor: i32, origin: i32, extent: u32, thumb: u32)
    requires
        thumb <= extent <= i32::MAX,
        origin + extent <= i32::MAX,
        origin <= cursor < origin + extent,
    ensures
        placeable(cursor, origin, extent, thumb),
{
}

/// Where a monitor is, and how large.
pub open spec fn area(m: Monitor) -> DesktopBounds {
    DesktopBounds { x: m.x, y: m.y, width: m.width, height: m.height }
}

fn area_of(m: &Monitor) -> (r: DesktopBounds)
    ensures
        r == area(*m),
{
    DesktopBounds { x: m.x, y: m.y, width: m.width, height: m.height }
}

/// What is settled before the screenshot is taken: the desktop, the primary monitor, which is
/// the first, the monitor that the overlay appears on, and the size that the thumbnail has to
/// fit.
#[derive(Debug, Clone, Copy, PartialEq, Eq, Structural)]
pub struct Plan {
    pub desktop: DesktopBounds,
    pub primary: DesktopBounds,
    pub monitor: DesktopBounds,
    pub thumb_width: u32,
    pub thumb_height: u32,
}

impl Plan {
    pub fn new(monitors: &[Monitor], cursor_x: i32, cursor_y: i32) -> (r: Plan)
        requires
            monitors@.len() > 0,
            coords::edges_fit(monitors@),
            coords::extent_fits(monitors@),
        ensures
            (
                r.desktop.x as int,
                r.desktop.y as int,
                r.desktop.width as int,
                r.desktop.height as int,
            ) == coords::bounds(monitors@),
            r.primary == area(monitors@[0]),
            r.monitor == area(
                monitors@[chosen_monitor(monitors@, cursor_x as int, cursor_y as int)],
            ),
            (r.thumb_width as int, r.thumb_height as int) == thumbnail_box(r.desktop, r.primary),
    {
        let desktop = DesktopBounds::from_monitors(monitors);
        let primary = area_of(&monitors[0]);
        let monitor = area_of(&monitors[cursor_monitor(monitors, cursor_x, cursor_y)]);
        let (max_w, max_h) = thumbnail_limits(&primary);
        let (thumb_width, thumb_height) = CoordMapper::compute_overlay_size(
            &desktop,
            max_w,
            max_h,
        );
        Plan { desktop, primary, monitor, thumb_width, thumb_height }
    }

    /// Whether an overlay of a size can be placed.
    pub fn can_position(&self, cursor_x: i32, cursor_y: i32, width: u32, height: u32) -> (b: bool)
        ensures
            b == (placeable(cursor_x, self.monitor.x, self.monitor.width, width) && placeable(
                cursor_y,
                self.monitor.y,
                self.monitor.height,
                height,
            )),
    {
        can_place(cursor_x, self.monitor.x, self.monitor.width, width) && can_place(
            cursor_y,
            self.monitor.y,
            self.monitor.height,
            height,
        )
    }

    /// Where an overlay of a size appears, in the coordinates of the desktop.
    pub fn position(&self, cursor_x: i32, cursor_y: i32, width: u32, height: u32) -> (r: (i32, i32))
        requires
            placeable(cursor_x, self.monitor.x, self.monitor.width, width),
            placeable(cursor_y, self.monitor.y, self.monitor.height, height),
        ensures
            r.0 == self.monitor.x + margin(cursor_x, self.monitor.x, self.monitor.width, width),
            r.1 == self.monitor.y + margin(cursor_y, self.monitor.y, self.monitor.height, height),
    {
        (
            overlay_position(cursor_x, self.monitor.x, self.monitor.width, width),
            overlay_position(cursor_y, self.monitor.y, self.monitor.height, height),
        )
    }
}

/// With the cursor on a monitor that is not smaller than the fraction of the primary monitor
/// that the overlay may take, the thumbnail of a screenshot of any size has a place on it.
pub proof fn law_thumbnail_has_a_place(
    desktop: DesktopBounds,
    primary: DesktopBounds,
    m: DesktopBounds,
    cursor_x: i32,
    cursor_y: i32,
    w: u32,
    h: u32,
)
    requires
        m.x <= cursor_x < m.x + m.width <= i32::MAX,
        m.y <= cursor_y < m.y + m.height <= i32::MAX,
        primary.width / OVERLAY_FRACTION <= m.width <= i32::MAX,
        primary.height / OVERLAY_FRACTION <= m.height <= i32::MAX,
    ensures
        ({
            let (box_w, box_h) = thumbnail_box(desktop, primary);
            let (tw, th) = scaling::fitted(w, h, box_w as u32, box_h as u32);
            placeable(cursor_x, m.x, m.width, tw as u32) && placeable(
                cursor_y,
                m.y,
                m.height,
                th as u32,
            )
        }),
{
    law_thumbnail_within_limits(desktop, primary, w, h);
    let (box_w, box_h) = thumbnail_box(desktop, primary);
    let (tw, th) = scaling::fitted(w, h, box_w as u32, box_h as u32);
    law_smaller_can_be_placed(cursor_x, m.x, m.width, tw as u32);
    law_smaller_can_be_placed(cursor_y, m.y, m.height, th as u32);
}

/// The first argument that asks for a delay, from the `from`th; the number of arguments
/// if none does.
pub open spec fn first_delay(args: Seq<String>, from: int) -> int
    decreases args.len() - from,
{
    if from >= args.len() {
        args.len() as int
    } else if args[from]@ == "--delay"@ {
        from
    } else {
        first_delay(args, from + 1)
    }
}

/// The seconds to wait: what the argument after the first `--delay` says, if it is a `u64`.
pub open spec fn delay(args: Seq<String>) -> Option<int> {
    let i = first_delay(args, 0);
    if i + 1 < args.len() {
        text::parsed(args[i + 1]@, 0, u64::MAX as int)
    } else {
        None
    }
}

/// If --delay N is passed, the N seconds to wait (for testing without a hotkey).
pub fn delay_seconds(args: &[String]) -> (r: Option<u64>)
    ensures
        match delay(args@) {
            Some(v) => r is Some && r->0 == v,
            None => r is None,
        },
{
    let mut i: usize = 0;
    while i < args.len()
        invariant
            i <= args@.len(),
            first_delay(args@, 0) == first_delay(args@, i as int),
        decreases args@.len() - i,
    {
        let arg = text::chars_of(args[i].as_str());
        if text::same(arg.as_slice(), "--delay") {
            if args.len() - i < 2 {
                return None;
            }
            let n = text::chars_of(args[i + 1].as_str());
            return text::parse_unsigned(n.as_slice(), u64::MAX);
        }
        i = i + 1;
    }
    None
}

/// Of all places for the overlay on the monitor, it takes the one at which its middle is
/// nearest to the cursor. So where the cursor is less than half the overlay from an edge of the
/// monitor, or beyond it, the overlay begins, or ends, with the monitor.
pub proof fn law_overlay_is_nearest(
    cursor: i32,
    origin: i32,
    extent: u32,
    thumb: u32,
    other: int,
)
    requires
        thumb <= extent <= i32::MAX,
        origin <= other,
        other + thumb <= origin + extent,
    ensures
        ({
            let at = origin + margin(cursor, origin, extent, thumb);
            let (d, e) = (at + thumb / 2 - cursor, other + thumb / 2 - cursor);
            &&& origin <= at && at + thumb <= origin + extent
            &&& (if d < 0 {
                -d
            } else {
                d
            }) <= (if e < 0 {
                -e
            } else {
                e
            })
            &&& cursor - origin < thumb / 2 ==> at == origin
            &&& origin + extent - cursor < thumb - thumb / 2 ==> at + thumb == origin + extent
        }),
{
}

/// An overlay can be placed on a monitor that is not smaller, unless the cursor is so far away
/// that the distance is no 32-bit number; it cannot be placed on one that is smaller.
pub proof fn law_what_can_be_placed(cursor: i32, origin: i32, extent: u32, thumb: u32)
    requires
        thumb <= i32::MAX,
        extent <= i32::MAX,
        origin + extent <= i32::MAX,
    ensures
        thumb > extent ==> !placeable(cursor, origin, extent, thumb),
        thumb <= extent && i32::MIN <= cursor - origin - thumb / 2 && cursor - origin <= i32::MAX
            ==> placeable(cursor, origin, extent, thumb),
{
}

/// The thumbnail may be as wide as a quarter of the primary monitor and as 1200 pixels, and as
/// high as a quarter of it and as 800, and no more.
pub proof fn law_limits(extent: u32)
    ensures
        ({
            let (w, h) = (limited(extent, MAX_OVERLAY_WIDTH), limited(extent, MAX_OVERLAY_HEIGHT));
            &&& 0 <= w <= 1200 && 4 * w <= extent && (w == 1200 || 4 * (w + 1) > extent)
            &&& 0 <= h <= 800 && 4 * h <= extent && (h == 800 || 4 * (h + 1) > extent)
        }),
{
}

/// The thumbnail has the proportions of the desktop, and is as large as its limits allow: one
/// of its sides is at the limit, and the other one, of a desktop of up to a million pixels each
/// way, within a pixel of its proportion.
pub proof fn law_thumbnail_of_desktop(desktop: DesktopBounds, primary: DesktopBounds)
    requires
        0 < desktop.width <= 1_000_000,
        0 < desktop.height <= 1_000_000,
        4 <= primary.width,
        4 <= primary.height,
    ensures
        ({
            let (w, h) = thumbnail_box(desktop, primary);
            let (max_w, max_h) = (
                if primary.width / 4 < 1200 {
                    (primary.width / 4) as int
                } else {
                    1200
                },
                if primary.height / 4 < 800 {
                    (primary.height / 4) as int
                } else {
                    800
                },
            );
            let (dw, dh) = (desktop.width as int, desktop.height as int);
            &&& 1 <= w <= max_w && 1 <= h <= max_h
            &&& w == max_w && max_w * dh - dw <= h * dw <= max_w * dh + dw || h == max_h && max_h * dw
                - dh <= w * dh <= max_h * dw + dh
        }),
{
    let (max_w, max_h) = (
        limited(primary.width, MAX_OVERLAY_WIDTH) as u32,
        limited(primary.height, MAX_OVERLAY_HEIGHT) as u32,
    );
    scaling::law_fitted_fits(desktop.width, desktop.height, max_w, max_h);
    scaling::law_fitted_is_proportional(desktop.width, desktop.height, max_w, max_h);
}

/// The overlay appears on the monitor that the cursor is on: the first, if it is on several;
/// where it is on none, the overlay appears on the first monitor of all.
pub proof fn law_chosen_monitor(ms: Seq<Monitor>, x: int, y: int, i: int)
    requires
        0 <= i < ms.len(),
        forall|j: int|
            0 <= j < ms.len() ==> (#[trigger] ms[j]).width <= i32::MAX && ms[j].height <= i32::MAX,
    ensures
        ({
            let c = chosen_monitor(ms, x, y);
            let m = ms[c];
            let (on_it, on_other) = (
                m.x <= x < m.x + m.width && m.y <= y < m.y + m.height,
                ms[i].x <= x < ms[i].x + ms[i].width && ms[i].y <= y < ms[i].y + ms[i].height,
            );
            &&& 0 <= c < ms.len()
            &&& on_other ==> on_it && c <= i
            &&& !on_it ==> c == 0
        }),
{
    if on_monitor(ms[i], x, y) {
        lemma_first_with(ms, x, y, 0, i);
    }
    lemma_first_or_none(ms, x, y, 0);
}

proof fn lemma_first_or_none(ms: Seq<Monitor>, x: int, y: int, from: int)
    requires
        0 <= from <= ms.len(),
    ensures
        from <= first_with(ms, x, y, from) <= ms.len(),
        first_with(ms, x, y, from) < ms.len() ==> on_monitor(
            ms[first_with(ms, x, y, from)],
            x,
            y,
        ),
    decreases ms.len() - from,
{
    if from < ms.len() && !on_monitor(ms[from], x, y) {
        lemma_first_or_none(ms, x, y, from + 1);
    }
}

/// Where a monitor is, and how large, is what its fields say.
pub proof fn law_area(m: Monitor)
    ensures
        area(m).x == m.x && area(m).y == m.y,
        area(m).width == m.width && area(m).height == m.height,
{
}

/// The number of seconds that is written after the first `--delay` is the delay; there is none
/// where `--delay` is not given, or nothing is written after it.
pub proof fn law_delay(args: Seq<String>, i: int, n: nat)
    requires
        0 <= i <= args.len(),
        forall|j: int| 0 <= j < i ==> (#[trigger] args[j])@ != "--delay"@,
        i < args.len() ==> args[i]@ == "--delay"@,
        n <= u64::MAX,
    ensures
        i + 1 < args.len() && args[i + 1]@ == text::decimal(n) ==> delay(args) == Some(n as int),
        i + 1 >= args.len() ==> delay(args) is None,
        i + 1 < args.len() ==> delay(args) == text::parsed(args[i + 1]@, 0, u64::MAX as int),
        i + 1 < args.len() && !text::all_digits(args[i + 1]@) && !(args[i + 1]@.len() > 0 && args[i
            + 1]@[0] == '+') ==> delay(args) is None,
{
    lemma_first_delay(args, 0, i);
    text::law_decimal_read_back(n as int, 0, u64::MAX as int);
}

proof fn lemma_first_delay(args: Seq<String>, from: int, i: int)
    requires
        0 <= from <= i <= args.len(),
        forall|j: int| from <= j < i ==> (#[trigger] args[j])@ != "--delay"@,
        i < args.len() ==> args[i]@ == "--delay"@,
    ensures
        first_delay(args, from) == i,
    decreases i - from,
{
    if from < i {
        assert(args[from]@ != "--delay"@);
        lemma_first_delay(args, from + 1, i);
    }
}

/// The box that the thumbnail has to fit is that of the desktop, scaled to fit a quarter of the
/// primary monitor and 1200 by 800 pixels.
pub proof fn law_thumbnail_box(desktop: DesktopBounds, primary: DesktopBounds)
    ensures
        ({
            let (w, h) = (primary.width / 4, primary.height / 4);
            thumbnail_box(desktop, primary) == scaling::fitted(
                desktop.width,
                desktop.height,
                if w <= 1200 {
                    w
                } else {
                    1200
                },
                if h <= 800 {
                    h
                } else {
                    800
                },
            )
        }),
{
}

} // verus!
