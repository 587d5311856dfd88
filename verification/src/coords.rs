//! Coordinate mapping between the overlay thumbnail and real desktop space.
use crate::double::Double;
use crate::number::{self, Number};
use crate::rounding;
use crate::scaling;
use vstd::arithmetic::power2::*;
use vstd::prelude::*;

verus! {

/// A single monitor in the virtual desktop layout.
///
/// The scale factor is held as text that writes down a number; nothing here computes with
/// it.
#[derive(Debug, Clone)]
pub struct Monitor {
    pub name: String,
    pub x: i32,
    pub y: i32,
    pub width: u32,
    pub height: u32,
    pub scale: String,
}

/// The bounding box of the entire virtual desktop (union of all monitors).
#[derive(Debug, Clone, Copy, PartialEq, Eq, Structural)]
pub struct DesktopBounds {
    pub x: i32,
    pub y: i32,
    pub width: u32,
    pub height: u32,
}

/// What `as i32` makes of a `u32`.
pub open spec fn wrapped_i32(v: u32) -> int {
    if v <= 0x7fff_ffff {
        v as int
    } else {
        v - 0x1_0000_0000
    }
}

/// What `as u32` makes of an `i32`.
pub open spec fn wrapped_u32(v: int) -> int {
    if v >= 0 {
        v
    } else {
        v + 0x1_0000_0000
    }
}

/// Whether an integer is an `i32`.
pub open spec fn is_i32(v: int) -> bool {
    i32::MIN <= v <= i32::MAX
}

/// The left edges of monitors.
pub open spec fn lefts(ms: Seq<Monitor>) -> Seq<int> {
    Seq::new(ms.len(), |i: int| ms[i].x as int)
}

/// The upper edges of monitors.
pub open spec fn tops(ms: Seq<Monitor>) -> Seq<int> {
    Seq::new(ms.len(), |i: int| ms[i].y as int)
}

/// The right edges of monitors: the first column beyond each.
pub open spec fn rights(ms: Seq<Monitor>) -> Seq<int> {
    Seq::new(ms.len(), |i: int| ms[i].right())
}

/// The lower edges of monitors: the first row beyond each.
pub open spec fn bottoms(ms: Seq<Monitor>) -> Seq<int> {
    Seq::new(ms.len(), |i: int| ms[i].bottom())
}

impl Monitor {
    pub open spec fn right(self) -> int {
        self.x + wrapped_i32(self.width)
    }

    pub open spec fn bottom(self) -> int {
        self.y + wrapped_i32(self.height)
    }
}

/// Whether every edge of every monitor is an `i32`.
pub open spec fn edges_fit(ms: Seq<Monitor>) -> bool {
    forall|i: int| 0 <= i < ms.len() ==> is_i32((#[trigger] ms[i]).right()) && is_i32(ms[i].bottom())
}

/// Whether the extent of the whole desktop is an `i32`, each way.
pub open spec fn extent_fits(ms: Seq<Monitor>) -> bool {
    ms.len() > 0 ==> is_i32(rights(ms).max() - lefts(ms).min()) && is_i32(
        bottoms(ms).max() - tops(ms).min(),
    )
}

/// The bounding box of monitors; that of one full HD monitor where there is none.
pub open spec fn bounds(ms: Seq<Monitor>) -> (int, int, int, int) {
    if ms.len() == 0 {
        (0, 0, 1920, 1080)
    } else {
        let x = lefts(ms).min();
        let y = tops(ms).min();
        (x, y, wrapped_u32(rights(ms).max() - x), wrapped_u32(bottoms(ms).max() - y))
    }
}

pub(crate) fn to_i32(v: u32) -> (r: i32)
    ensures
        r == wrapped_i32(v),
{
    if v <= 0x7fff_ffff {
        v as i32
    } else {
        (v as i64 - 0x1_0000_0000i64) as i32
    }
}

fn to_u32(v: i32) -> (r: u32)
    ensures
        r == wrapped_u32(v as int),
{
    if v >= 0 {
        v as u32
    } else {
        (v as i64 + 0x1_0000_0000i64) as u32
    }
}

/// The leftmost left, the uppermost upper, the rightmost right and the lowest lower edge of
/// some monitors.
fn extremes(monitors: &[Monitor]) -> (r: (i32, i32, i32, i32))
    requires
        monitors@.len() > 0,
        edges_fit(monitors@),
    ensures
        r.0 == lefts(monitors@).min(),
        r.1 == tops(monitors@).min(),
        r.2 == rights(monitors@).max(),
        r.3 == bottoms(monitors@).max(),
{
    let ghost ms = monitors@;
    let mut min_x: i32 = monitors[0].x;
    let mut min_y: i32 = monitors[0].y;
    let mut max_x: i32 = monitors[0].x + to_i32(monitors[0].width);
    let mut max_y: i32 = monitors[0].y + to_i32(monitors[0].height);
    let mut i: usize = 1;
    assert(lefts(ms)[0] == min_x && tops(ms)[0] == min_y);
    assert(rights(ms)[0] == max_x && bottoms(ms)[0] == max_y);
    while i < monitors.len()
        invariant
            ms == monitors@,
            1 <= i <= ms.len(),
            edges_fit(ms),
            lefts(ms).contains(min_x as int),
            tops(ms).contains(min_y as int),
            rights(ms).contains(max_x as int),
            bottoms(ms).contains(max_y as int),
            forall|j: int| 0 <= j < i ==> min_x <= #[trigger] lefts(ms)[j],
            forall|j: int| 0 <= j < i ==> min_y <= #[trigger] tops(ms)[j],
            forall|j: int| 0 <= j < i ==> #[trigger] rights(ms)[j] <= max_x,
            forall|j: int| 0 <= j < i ==> #[trigger] bottoms(ms)[j] <= max_y,
        decreases ms.len() - i,
    {
        let m = &monitors[i];
        let ghost at = i as int;
        assert(lefts(ms)[at] == m.x && tops(ms)[at] == m.y);
        assert(is_i32(ms[at].right()) && is_i32(ms[at].bottom()));
        let right: i32 = m.x + to_i32(m.width);
        let bottom: i32 = m.y + to_i32(m.height);
        assert(rights(ms)[at] == right && bottoms(ms)[at] == bottom);
        if m.x < min_x {
            min_x = m.x;
        }
        if m.y < min_y {
            min_y = m.y;
        }
        if right > max_x {
            max_x = right;
        }
        if bottom > max_y {
            max_y = bottom;
        }
        i = i + 1;
    }
    proof {
        lefts(ms).min_ensures();
        tops(ms).min_ensures();
        rights(ms).max_ensures();
        bottoms(ms).max_ensures();
        let a = choose|j: int| 0 <= j < ms.len() && lefts(ms)[j] == lefts(ms).min();
        let b = choose|j: int| 0 <= j < ms.len() && tops(ms)[j] == tops(ms).min();
        let c = choose|j: int| 0 <= j < ms.len() && rights(ms)[j] == rights(ms).max();
        let d = choose|j: int| 0 <= j < ms.len() && bottoms(ms)[j] == bottoms(ms).max();
        assert(min_x == lefts(ms).min());
        assert(min_y == tops(ms).min());
        assert(max_x == rights(ms).max());
        assert(max_y == bottoms(ms).max());
    }
    (min_x, min_y, max_x, max_y)
}

impl DesktopBounds {
    /// Compute the bounding box that contains all monitors.
    pub fn from_monitors(monitors: &[Monitor]) -> (r: DesktopBounds)
        requires
            edges_fit(monitors@),
            extent_fits(monitors@),
        ensures
            (r.x as int, r.y as int, r.width as int, r.height as int) == bounds(monitors@),
    {
        if monitors.len() == 0 {
            return DesktopBounds { x: 0, y: 0, width: 1920, height: 1080 };
        }
        let (x, y, right, bottom): (i32, i32, i32, i32) = extremes(monitors);
        DesktopBounds { x, y, width: to_u32(right - x), height: to_u32(bottom - y) }
    }
}

impl DesktopBounds {
    /// Whether the bounding box of monitors can be computed: whether their edges, and the
    /// extent of the whole desktop, are `i32`s.
    pub fn can_compute(monitors: &[Monitor]) -> (b: bool)
        ensures
            b == (edges_fit(monitors@) && extent_fits(monitors@)),
    {
        let ghost ms = monitors@;
        let (lo, hi): (i64, i64) = (i32::MIN as i64, i32::MAX as i64);
        let mut i: usize = 0;
        while i < monitors.len()
            invariant
                ms == monitors@,
                lo == i32::MIN,
                hi == i32::MAX,
                i <= ms.len(),
                forall|j: int|
                    0 <= j < i ==> is_i32((#[trigger] ms[j]).right()) && is_i32(ms[j].bottom()),
            decreases ms.len() - i,
        {
            let m = &monitors[i];
            let right: i64 = m.x as i64 + to_i32(m.width) as i64;
            let bottom: i64 = m.y as i64 + to_i32(m.height) as i64;
            if right < lo || right > hi || bottom < lo || bottom > hi {
                assert(!(is_i32(ms[i as int].right()) && is_i32(ms[i as int].bottom())));
                return false;
            }
            i = i + 1;
        }
        if monitors.len() == 0 {
            return true;
        }
        let (x, y, right, bottom): (i32, i32, i32, i32) = extremes(monitors);
        let w: i64 = right as i64 - x as i64;
        let h: i64 = bottom as i64 - y as i64;
        lo <= w && w <= hi && lo <= h && h <= hi
    }
}

/// The bounding box contains every monitor, and each of its four edges is an edge of
/// some monitor.
pub proof fn law_bounds_contain(ms: Seq<Monitor>, i: int)
    requires
        0 <= i < ms.len(),
        forall|j: int| 0 <= j < ms.len() ==> (#[trigger] ms[j]).width <= i32::MAX && ms[j].height
            <= i32::MAX,
    ensures
        ({
            let (x, y, w, h) = bounds(ms);
            &&& x <= ms[i].x && ms[i].x + ms[i].width <= x + w
            &&& y <= ms[i].y && ms[i].y + ms[i].height <= y + h
            &&& exists|j: int| 0 <= j < ms.len() && (#[trigger] ms[j]).x == x
            &&& exists|j: int| 0 <= j < ms.len() && (#[trigger] ms[j]).y == y
            &&& exists|j: int| 0 <= j < ms.len() && (#[trigger] ms[j]).x + ms[j].width == x + w
            &&& exists|j: int| 0 <= j < ms.len() && (#[trigger] ms[j]).y + ms[j].height == y + h
        }),
{
    lefts(ms).min_ensures();
    tops(ms).min_ensures();
    rights(ms).max_ensures();
    bottoms(ms).max_ensures();
    assert(lefts(ms)[i] == ms[i].x && tops(ms)[i] == ms[i].y);
    assert(rights(ms)[i] == ms[i].right() && bottoms(ms)[i] == ms[i].bottom());
    let a = choose|j: int| 0 <= j < ms.len() && lefts(ms)[j] == lefts(ms).min();
    let b = choose|j: int| 0 <= j < ms.len() && tops(ms)[j] == tops(ms).min();
    let c = choose|j: int| 0 <= j < ms.len() && rights(ms)[j] == rights(ms).max();
    let d = choose|j: int| 0 <= j < ms.len() && bottoms(ms)[j] == bottoms(ms).max();
    assert(ms[a].x == lefts(ms).min());
    assert(ms[b].y == tops(ms).min());
    assert(ms[c].right() == rights(ms).max());
    assert(ms[d].bottom() == bottoms(ms).max());
}

/// Whether a monitor is where the `j`th of some monitors is, and as large.
pub open spec fn same_place(m: Monitor, ms: Seq<Monitor>, j: int) -> bool {
    0 <= j < ms.len() && m.x == ms[j].x && m.y == ms[j].y && m.width == ms[j].width && m.height
        == ms[j].height
}

/// Whether a monitor is where one of some monitors is, and as large.
pub open spec fn has_place(m: Monitor, ms: Seq<Monitor>) -> bool {
    exists|j: int| #[trigger] same_place(m, ms, j)
}

/// Whether every monitor of `a` is where one of `b` is, and as large.
pub open spec fn places_in(a: Seq<Monitor>, b: Seq<Monitor>) -> bool {
    forall|i: int| 0 <= i < a.len() ==> has_place(#[trigger] a[i], b)
}

/// Only where the monitors are and how large counts in the bounding box: not their order, nor
/// their names or scale factors, nor how often one is listed.
pub proof fn law_bounds_by_place(a: Seq<Monitor>, b: Seq<Monitor>)
    requires
        places_in(a, b),
        places_in(b, a),
    ensures
        bounds(a) == bounds(b),
{
    if a.len() > 0 {
        assert(has_place(a[0], b));
    }
    if b.len() > 0 {
        assert(has_place(b[0], a));
        lemma_extremes_within(a, b);
        lemma_extremes_within(b, a);
    }
}

/// The extremes of monitors that are among others are within theirs.
proof fn lemma_extremes_within(a: Seq<Monitor>, b: Seq<Monitor>)
    requires
        a.len() > 0,
        b.len() > 0,
        places_in(a, b),
    ensures
        lefts(b).min() <= lefts(a).min(),
        tops(b).min() <= tops(a).min(),
        rights(a).max() <= rights(b).max(),
        bottoms(a).max() <= bottoms(b).max(),
{
    lefts(a).min_ensures();
    tops(a).min_ensures();
    rights(a).max_ensures();
    bottoms(a).max_ensures();
    lefts(b).min_ensures();
    tops(b).min_ensures();
    rights(b).max_ensures();
    bottoms(b).max_ensures();
    let l = choose|j: int| 0 <= j < a.len() && lefts(a)[j] == lefts(a).min();
    let t = choose|j: int| 0 <= j < a.len() && tops(a)[j] == tops(a).min();
    let r = choose|j: int| 0 <= j < a.len() && rights(a)[j] == rights(a).max();
    let d = choose|j: int| 0 <= j < a.len() && bottoms(a)[j] == bottoms(a).max();
    assert(has_place(a[l], b) && has_place(a[t], b) && has_place(a[r], b) && has_place(a[d], b));
    let l2 = choose|j: int| #[trigger] same_place(a[l], b, j);
    let t2 = choose|j: int| #[trigger] same_place(a[t], b, j);
    let r2 = choose|j: int| #[trigger] same_place(a[r], b, j);
    let d2 = choose|j: int| #[trigger] same_place(a[d], b, j);
    assert(lefts(b)[l2] == lefts(a).min());
    assert(tops(b)[t2] == tops(a).min());
    assert(rights(b)[r2] == rights(a).max());
    assert(bottoms(b)[d2] == bottoms(a).max());
}

/// The order of the monitors does not matter to the bounding box.
pub proof fn law_bounds_in_any_order(a: Seq<Monitor>, b: Seq<Monitor>)
    requires
        a.to_multiset() == b.to_multiset(),
    ensures
        bounds(a) == bounds(b),
{
    lemma_all_among(a, b);
    lemma_all_among(b, a);
    law_bounds_by_place(a, b);
}

proof fn lemma_all_among(a: Seq<Monitor>, b: Seq<Monitor>)
    requires
        a.to_multiset() == b.to_multiset(),
    ensures
        places_in(a, b),
{
    a.to_multiset_ensures();
    b.to_multiset_ensures();
    assert forall|i: int| 0 <= i < a.len() implies has_place(#[trigger] a[i], b) by {
        assert(a.contains(a[i]));
        assert(a.to_multiset().count(a[i]) > 0);
        assert(b.contains(a[i]));
        let j = choose|j: int| 0 <= j < b.len() && b[j] == a[i];
        assert(same_place(a[i], b, j));
    }
}

/// A monitor that is inside the bounding box of others does not change it.
pub proof fn law_bounds_with_one_inside(ms: Seq<Monitor>, m: Monitor)
    requires
        ms.len() > 0,
        lefts(ms).min() <= m.x,
        tops(ms).min() <= m.y,
        m.right() <= rights(ms).max(),
        m.bottom() <= bottoms(ms).max(),
    ensures
        bounds(ms.push(m)) == bounds(ms),
{
    let all = ms.push(m);
    assert forall|i: int| 0 <= i < ms.len() implies has_place(#[trigger] ms[i], all) by {
        assert(same_place(ms[i], all, i));
    }
    lemma_extremes_within(ms, all);
    lefts(all).min_ensures();
    tops(all).min_ensures();
    rights(all).max_ensures();
    bottoms(all).max_ensures();
    lefts(ms).min_ensures();
    tops(ms).min_ensures();
    rights(ms).max_ensures();
    bottoms(ms).max_ensures();
    let l = choose|j: int| 0 <= j < all.len() && lefts(all)[j] == lefts(all).min();
    let t = choose|j: int| 0 <= j < all.len() && tops(all)[j] == tops(all).min();
    let r = choose|j: int| 0 <= j < all.len() && rights(all)[j] == rights(all).max();
    let d = choose|j: int| 0 <= j < all.len() && bottoms(all)[j] == bottoms(all).max();
    if l < ms.len() {
        assert(lefts(ms)[l] == lefts(all)[l]);
    }
    if t < ms.len() {
        assert(tops(ms)[t] == tops(all)[t]);
    }
    if r < ms.len() {
        assert(rights(ms)[r] == rights(all)[r]);
    }
    if d < ms.len() {
        assert(bottoms(ms)[d] == bottoms(all)[d]);
    }
}

/// Maps a click position on the overlay to real desktop coordinates.
#[derive(Debug, Clone, Copy, PartialEq, Eq, Structural)]
pub struct CoordMapper {
    pub desktop: DesktopBounds,
    pub overlay_width: u32,
    pub overlay_height: u32,
}

/// Where a position `at` on an overlay of the size `overlay` lies on a desktop that
/// begins at `origin` and has the size `extent`, one way, in double precision.
pub open spec fn placed(at: Number, overlay: u32, extent: u32, origin: i32) -> Number {
    at.quotient(Number::integer(overlay as int)).product(Number::integer(extent as int)).sum(
        Number::integer(origin as int),
    )
}

impl CoordMapper {
    pub fn new(desktop: DesktopBounds, overlay_width: u32, overlay_height: u32) -> (r: CoordMapper)
        ensures
            r.desktop == desktop,
            r.overlay_width == overlay_width,
            r.overlay_height == overlay_height,
    {
        CoordMapper { desktop, overlay_width, overlay_height }
    }

    /// Convert a click at (overlay_x, overlay_y) to real desktop coordinates.
    pub fn overlay_to_desktop(&self, overlay_x: Double, overlay_y: Double) -> (r: (Double, Double))
        requires
            overlay_x.wf(),
            overlay_y.wf(),
        ensures
            r.0.wf(),
            r.1.wf(),
            r.0@ == placed(overlay_x@, self.overlay_width, self.desktop.width, self.desktop.x),
            r.1@ == placed(overlay_y@, self.overlay_height, self.desktop.height, self.desktop.y),
    {
        let real_x = overlay_x.quotient(Double::integer(self.overlay_width as i64)).product(
            Double::integer(self.desktop.width as i64),
        ).sum(Double::integer(self.desktop.x as i64));
        let real_y = overlay_y.quotient(Double::integer(self.overlay_height as i64)).product(
            Double::integer(self.desktop.height as i64),
        ).sum(Double::integer(self.desktop.y as i64));
        (real_x, real_y)
    }

    /// Calculate the overlay dimensions that fit within max_width x max_height
    /// while maintaining the desktop aspect ratio.
    pub fn compute_overlay_size(desktop: &DesktopBounds, max_width: u32, max_height: u32) -> (r: (
        u32,
        u32,
    ))
        ensures
            (r.0 as int, r.1 as int) == scaling::fitted(
                desktop.width,
                desktop.height,
                max_width,
                max_height,
            ),
    {
        scaling::fit_within(desktop.width, desktop.height, max_width, max_height)
    }
}

/// A click on the left or upper edge of the overlay lands on that edge of the desktop.
pub proof fn law_near_edge(overlay: u32, extent: u32, origin: i32)
    requires
        overlay > 0,
    ensures
        placed(Number::integer(0), overlay, extent, origin) == Number::integer(origin as int),
{
    lemma2_to64();
    number::lemma_exact(overlay as nat, 0);
    number::lemma_integer(extent as nat);
    if origin != 0 {
        number::lemma_exact(number::distance(origin as int), 0);
    }
    assert(forall|m: nat| #[trigger] (0 * m) == 0) by (nonlinear_arith);
}

/// A click on the right or lower edge of the overlay lands on that edge of the desktop.
pub proof fn law_far_edge(overlay: u32, extent: u32, origin: i32)
    requires
        overlay > 0,
    ensures
        placed(Number::integer(overlay as int), overlay, extent, origin) == Number::integer(
            origin + extent,
        ),
{
    let (o, t) = (Number::integer(overlay as int), Number::integer(extent as int));
    number::lemma_integer(overlay as nat);
    number::lemma_integer(extent as nat);
    number::lemma_integer(1);
    number::lemma_quotient(o, overlay as nat, 1, o, overlay as nat, 1);
    number::lemma_rounded_same(overlay as nat * 1, 1 * overlay as nat, 1, 1);
    assert(o.quotient(o) == Number::integer(1));
    number::lemma_product(Number::integer(1), 1, 1, t, extent as nat, 1);
    assert(1 * extent as nat == extent as nat) by (nonlinear_arith);
    number::lemma_rounded_representable(false, extent as nat, 1, 0);
    number::lemma_sum(t, extent as nat, 1, origin as int);
    assert(extent + origin * 1 == origin + extent) by (nonlinear_arith);
}

/// A position on the overlay as a fraction of it, and the same fraction of the desktop:
/// both are finite, and the first is at most one.
pub proof fn lemma_inside(at: Number, overlay: u32, extent: u32)
    requires
        overlay > 0,
        at is Finite,
        at.representable(),
        !at.is_negative(),
        at.at_most(Number::integer(overlay as int)),
    ensures
        ({
            let q = at.quotient(Number::integer(overlay as int));
            let p = q.product(Number::integer(extent as int));
            let (n, d) = (at->significand * rounding::power(at->exponent), rounding::power(
                -at->exponent,
            ));
            &&& q is Finite && q.representable() && !q.is_negative()
            &&& p is Finite && p.representable() && !p.is_negative()
            &&& q == Number::rounded(false, n, d * overlay as nat, 0)
            &&& n <= d * overlay as nat
            &&& p == Number::rounded(
                false,
                (q->significand * rounding::power(q->exponent)) * extent as nat,
                rounding::power(-q->exponent),
                0,
            )
            &&& q->significand * rounding::power(q->exponent) <= rounding::power(-q->exponent)
            &&& p->significand * rounding::power(p->exponent) <= extent * rounding::power(
                -p->exponent,
            )
        }),
{
    let o = Number::integer(overlay as int);
    let t = Number::integer(extent as int);
    let (ov, ex) = (overlay as nat, extent as nat);
    number::lemma_integer(ov);
    number::lemma_integer(ex);
    number::lemma_integer(1);
    number::lemma_own_ratio(at);
    let (n, d) = (at->significand * rounding::power(at->exponent), rounding::power(-at->exponent));
    number::lemma_ratio_order(at, n, d, o, ov, 1);
    assert(n * 1 == n && d * ov == ov * d) by (nonlinear_arith);
    assert(d * ov > 0) by (nonlinear_arith)
        requires
            d > 0,
            ov > 0,
    ;
    let q = at.quotient(o);
    number::lemma_quotient(at, n, d, o, ov, 1);
    number::lemma_rounded_representable(false, n, d * ov, 0);
    assert(n * 1 <= 1 * (d * ov));
    number::lemma_rounded_ordered(n, d * ov, 1, 1);
    assert(q.at_most(Number::integer(1)));
    number::lemma_own_ratio(q);
    let (nq, dq) = (q->significand * rounding::power(q->exponent), rounding::power(-q->exponent));
    number::lemma_ratio_order(q, nq, dq, Number::integer(1), 1, 1);
    let p = q.product(t);
    number::lemma_product(q, nq, dq, t, ex, 1);
    assert(dq * 1 == dq) by (nonlinear_arith);
    number::lemma_rounded_representable(false, nq * ex, dq, 0);
    assert((nq * ex) * 1 <= ex * dq) by (nonlinear_arith)
        requires
            nq <= dq,
    ;
    number::lemma_rounded_ordered(nq * ex, dq, ex, 1);
    assert(p.at_most(t));
    number::lemma_own_ratio(p);
    let (np, dp) = (p->significand * rounding::power(p->exponent), rounding::power(-p->exponent));
    number::lemma_ratio_order(p, np, dp, t, ex, 1);
}

/// The zero that has a sign lands where the other zero lands.
proof fn lemma_negative_zero(at: Number, overlay: u32, extent: u32, origin: i32)
    requires
        overlay > 0,
        at is Finite,
        at.representable(),
        at.is_at_least_zero(),
        at.is_negative(),
    ensures
        at == Number::zero(true),
        placed(at, overlay, extent, origin) == placed(Number::zero(false), overlay, extent, origin),
        at.at_most(Number::integer(overlay as int)) == Number::zero(false).at_most(
            Number::integer(overlay as int),
        ),
        Number::zero(false).representable(),
{
    lemma2_to64();
    number::lemma_exact(overlay as nat, 0);
    number::lemma_integer(extent as nat);
    if origin != 0 {
        number::lemma_exact(number::distance(origin as int), 0);
    }
    assert(forall|m: nat| #[trigger] (0 * m) == 0) by (nonlinear_arith);
    number::lemma_zeros_order(Number::integer(overlay as int));
}

/// A click on the overlay lands on the desktop: not before its first column or row,
/// and not beyond the last.
pub proof fn law_click_inside(at: Number, overlay: u32, extent: u32, origin: i32)
    requires
        overlay > 0,
        at is Finite,
        at.representable(),
        at.is_at_least_zero(),
        at.at_most(Number::integer(overlay as int)),
    ensures
        Number::integer(origin as int).at_most(placed(at, overlay, extent, origin)),
        placed(at, overlay, extent, origin).at_most(Number::integer(origin + extent)),
        origin + extent <= i32::MAX ==> origin <= placed(at, overlay, extent, origin).truncated(
            i32::MIN as int,
            i32::MAX as int,
        ) <= origin + extent,
{
    if at.is_negative() {
        lemma_negative_zero(at, overlay, extent, origin);
        lemma_click_inside(Number::zero(false), overlay, extent, origin);
    } else {
        lemma_click_inside(at, overlay, extent, origin);
    }
}

/// The same of a position that has no sign.
proof fn lemma_click_inside(at: Number, overlay: u32, extent: u32, origin: i32)
    requires
        overlay > 0,
        at is Finite,
        at.representable(),
        !at.is_negative(),
        at.at_most(Number::integer(overlay as int)),
    ensures
        Number::integer(origin as int).at_most(placed(at, overlay, extent, origin)),
        placed(at, overlay, extent, origin).at_most(Number::integer(origin + extent)),
        origin + extent <= i32::MAX ==> origin <= placed(at, overlay, extent, origin).truncated(
            i32::MIN as int,
            i32::MAX as int,
        ) <= origin + extent,
{
    lemma_inside(at, overlay, extent);
    let p = at.quotient(Number::integer(overlay as int)).product(Number::integer(extent as int));
    number::lemma_own_ratio(p);
    let (np, dp) = (p->significand * rounding::power(p->exponent), rounding::power(-p->exponent));
    number::lemma_sum(p, np, dp, origin as int);
    let t = np + origin * dp;
    assert(origin * dp <= t * 1) by (nonlinear_arith)
        requires
            t == np + origin * dp,
            np >= 0,
    ;
    number::lemma_signed_rounded_ordered(origin as int, 1, t, dp);
    assert(t * 1 <= (origin + extent) * dp) by (nonlinear_arith)
        requires
            t == np + origin * dp,
            np <= extent * dp,
    ;
    number::lemma_signed_rounded_ordered(t, dp, origin + extent, 1);
    let r = placed(at, overlay, extent, origin);
    let (lo, hi) = (i32::MIN as int, i32::MAX as int);
    if origin + extent <= i32::MAX {
        number::lemma_truncated_ordered(Number::integer(origin as int), r, lo, hi);
        number::lemma_truncated_ordered(r, Number::integer(origin + extent), lo, hi);
        number::lemma_truncated_integer(origin as int, lo, hi);
        number::lemma_truncated_integer(origin + extent, lo, hi);
    }
}

/// A click on the overlay lands at a finite position.
pub proof fn lemma_placed_is_double(at: Number, overlay: u32, extent: u32, origin: i32)
    requires
        overlay > 0,
        at is Finite,
        at.representable(),
        at.is_at_least_zero(),
        at.at_most(Number::integer(overlay as int)),
    ensures
        placed(at, overlay, extent, origin) is Finite,
        placed(at, overlay, extent, origin).representable(),
{
    if at.is_negative() {
        lemma_negative_zero(at, overlay, extent, origin);
        law_near_edge(overlay, extent, origin);
        number::lemma_rounded_representable(
            origin < 0,
            number::distance(origin as int),
            1,
            0,
        );
        law_click_accurate(at, overlay, extent, origin);
    } else {
        law_click_accurate(at, overlay, extent, origin);
        lemma_inside(at, overlay, extent);
        let p = at.quotient(Number::integer(overlay as int)).product(
            Number::integer(extent as int),
        );
        number::lemma_own_ratio(p);
        let (np, dp) = (p->significand * rounding::power(p->exponent), rounding::power(
            -p->exponent,
        ));
        number::lemma_sum(p, np, dp, origin as int);
        let t = np + origin * dp;
        number::lemma_rounded_representable(t < 0, number::distance(t), dp, 0);
    }
}

/// A click further to the right does not land further to the left, nor one further
/// down further up.
pub proof fn law_clicks_ordered(a: Number, b: Number, overlay: u32, extent: u32, origin: i32)
    requires
        overlay > 0,
        a is Finite,
        b is Finite,
        a.representable(),
        b.representable(),
        a.is_at_least_zero(),
        b.is_at_least_zero(),
        a.at_most(b),
    ensures
        placed(a, overlay, extent, origin).at_most(placed(b, overlay, extent, origin)),
{
    let z = Number::zero(false);
    let (c, d) = (
        if a.is_negative() {
            z
        } else {
            a
        },
        if b.is_negative() {
            z
        } else {
            b
        },
    );
    if a.is_negative() {
        lemma_negative_zero(a, overlay, extent, origin);
        number::lemma_zeros_order(d);
    }
    if b.is_negative() {
        lemma_negative_zero(b, overlay, extent, origin);
        number::lemma_zeros_order(a);
    }
    lemma_clicks_ordered(c, d, overlay, extent, origin);
}

/// The same of positions that have no sign.
proof fn lemma_clicks_ordered(a: Number, b: Number, overlay: u32, extent: u32, origin: i32)
    requires
        overlay > 0,
        a is Finite,
        b is Finite,
        a.representable(),
        b.representable(),
        !a.is_negative(),
        !b.is_negative(),
        a.at_most(b),
    ensures
        placed(a, overlay, extent, origin).at_most(placed(b, overlay, extent, origin)),
{
    let o = Number::integer(overlay as int);
    let t = Number::integer(extent as int);
    let (ov, ex) = (overlay as nat, extent as nat);
    number::lemma_integer(ov);
    number::lemma_integer(ex);
    lemma_fraction(a, overlay);
    lemma_fraction(b, overlay);
    let (na, da) = (a->significand * rounding::power(a->exponent), rounding::power(-a->exponent));
    let (nb, db) = (b->significand * rounding::power(b->exponent), rounding::power(-b->exponent));
    number::lemma_ratio_order(a, na, da, b, nb, db);
    let (qa, qb) = (a.quotient(o), b.quotient(o));
    assert(na * (db * ov) <= nb * (da * ov)) by (nonlinear_arith)
        requires
            na * db <= nb * da,
    ;
    assert(da * ov > 0 && db * ov > 0) by (nonlinear_arith)
        requires
            da > 0,
            db > 0,
            ov > 0,
    ;
    number::lemma_rounded_ordered(na, da * ov, nb, db * ov);
    number::lemma_own_ratio(qa);
    number::lemma_own_ratio(qb);
    let (ua, wa) = (qa->significand * rounding::power(qa->exponent), rounding::power(
        -qa->exponent,
    ));
    let (ub, wb) = (qb->significand * rounding::power(qb->exponent), rounding::power(
        -qb->exponent,
    ));
    number::lemma_ratio_order(qa, ua, wa, qb, ub, wb);
    let (pa, pb) = (qa.product(t), qb.product(t));
    number::lemma_product(qa, ua, wa, t, ex, 1);
    number::lemma_product(qb, ub, wb, t, ex, 1);
    assert(wa * 1 == wa && wb * 1 == wb) by (nonlinear_arith);
    assert((ua * ex) * wb <= (ub * ex) * wa) by (nonlinear_arith)
        requires
            ua * wb <= ub * wa,
    ;
    number::lemma_rounded_ordered(ua * ex, wa, ub * ex, wb);
    number::lemma_rounded_representable(false, ua * ex, wa, 0);
    number::lemma_rounded_representable(false, ub * ex, wb, 0);
    number::lemma_rounded_representable(
        origin < 0,
        number::distance(origin as int),
        1,
        0,
    );
    if origin != 0 {
        lemma2_to64();
        number::lemma_exact(number::distance(origin as int), 0);
    }
    if pa is Finite {
        number::lemma_own_ratio(pa);
        let (n1, d1) = (pa->significand * rounding::power(pa->exponent), rounding::power(
            -pa->exponent,
        ));
        number::lemma_sum(pa, n1, d1, origin as int);
        let t1 = n1 + origin * d1;
        number::lemma_rounded_representable(t1 < 0, number::distance(t1), d1, 0);
        if pb is Finite {
            number::lemma_own_ratio(pb);
            let (n2, d2) = (pb->significand * rounding::power(pb->exponent), rounding::power(
                -pb->exponent,
            ));
            number::lemma_sum(pb, n2, d2, origin as int);
            number::lemma_ratio_order(pa, n1, d1, pb, n2, d2);
            let t2 = n2 + origin * d2;
            assert(t1 * d2 <= t2 * d1) by (nonlinear_arith)
                requires
                    t1 == n1 + origin * d1,
                    t2 == n2 + origin * d2,
                    n1 * d2 <= n2 * d1,
            ;
            number::lemma_signed_rounded_ordered(t1, d1, t2, d2);
        }
    }
}

/// A finite position as a fraction of the overlay is finite.
proof fn lemma_fraction(a: Number, overlay: u32)
    requires
        overlay > 0,
        a is Finite,
        a.representable(),
        !a.is_negative(),
    ensures
        ({
            let q = a.quotient(Number::integer(overlay as int));
            let (n, d) = (a->significand * rounding::power(a->exponent), rounding::power(
                -a->exponent,
            ));
            &&& q == Number::rounded(false, n, d * overlay as nat, 0)
            &&& q is Finite && !q.is_negative() && q.representable()
            &&& a.is_ratio(n, d) && d > 0
        }),
{
    let o = Number::integer(overlay as int);
    let ov = overlay as nat;
    number::lemma_integer(ov);
    number::lemma_own_ratio(a);
    let (n, d) = (a->significand * rounding::power(a->exponent), rounding::power(-a->exponent));
    assert(n * 1 == n) by (nonlinear_arith);
    assert(d * ov > 0 && n * d <= n * (d * ov)) by (nonlinear_arith)
        requires
            d > 0,
            ov > 0,
    {
        assert(d * ov >= d);
    }
    number::lemma_quotient(a, n, d, o, ov, 1);
    number::lemma_rounded_representable(false, n, d * ov, 0);
    number::lemma_rounded_ordered(n, d * ov, n, d);
    number::lemma_rounded_self(a);
}

/// Three errors, of rounding a quotient, a product and a sum, taken together.
proof fn lemma_errors_add(
    a: int,
    b: int,
    c: int,
    total: int,
    w: int,
    f: int,
    dp: int,
    dq: int,
    ex: int,
)
    requires
        w > 0,
        f > 0,
        dp > 0,
        dq > 0,
        0 <= ex <= 0x1_0000_0000,
        -(w * dp) <= a * 0x10_0000 <= w * dp,
        -(dp * dq) <= b * 0x20_0000 <= dp * dq,
        -(dq * f) <= c * 0x20_0000_0000_0000 <= dq * f,
        total * (dp * dq) == (a * dq) * f + (w * b) * f + (w * dp) * (ex * c),
    ensures
        -(w * f) <= total * 0x8_0000 <= w * f,
{
    let g = dp * dq;
    let m = (w * f) * g;
    assert(g > 0) by (nonlinear_arith)
        requires
            g == dp * dq,
            dp > 0,
            dq > 0,
    ;
    let x = (a * dq) * f;
    let y = (w * b) * f;
    let z = (w * dp) * (ex * c);
    assert(-m <= x * 0x10_0000 <= m) by (nonlinear_arith)
        requires
            x == (a * dq) * f,
            m == (w * f) * g,
            g == dp * dq,
            -(w * dp) <= a * 0x10_0000 <= w * dp,
            dq > 0,
            f > 0,
    {
        let k = dq * f;
        assert(k > 0);
        assert((a * 0x10_0000) * k <= (w * dp) * k);
        assert((a * 0x10_0000) * k >= (-(w * dp)) * k);
        assert(x * 0x10_0000 == (a * 0x10_0000) * k);
        assert(m == (w * dp) * k);
    }
    assert(-m <= y * 0x20_0000 <= m) by (nonlinear_arith)
        requires
            y == (w * b) * f,
            m == (w * f) * g,
            -g <= b * 0x20_0000 <= g,
            w > 0,
            f > 0,
    {
        let k = w * f;
        assert(k > 0);
        assert((b * 0x20_0000) * k <= g * k);
        assert((b * 0x20_0000) * k >= (-g) * k);
        assert(y * 0x20_0000 == (b * 0x20_0000) * k);
    }
    assert(-m <= z * 0x20_0000 <= m) by {
        let k = w * dp;
        let u = c * 0x20_0000_0000_0000;
        let v = dq * f;
        assert(k > 0 && v > 0) by (nonlinear_arith)
            requires
                k == w * dp,
                v == dq * f,
                w > 0,
                dp > 0,
                dq > 0,
                f > 0,
        ;
        assert(ex * (c * 0x20_0000) <= v && ex * (c * 0x20_0000) >= -v) by (nonlinear_arith)
            requires
                -v <= u <= v,
                u == c * 0x20_0000_0000_0000,
                0 <= ex <= 0x1_0000_0000,
                v > 0,
        {
            let e = c * 0x20_0000;
            assert(u == e * 0x1_0000_0000);
            if e >= 0 {
                assert(ex * e <= 0x1_0000_0000 * e);
                assert(ex * e >= 0);
            } else {
                assert(ex * e >= 0x1_0000_0000 * e);
                assert(ex * e <= 0);
            }
        }
        assert(z * 0x20_0000 == k * (ex * (c * 0x20_0000))) by (nonlinear_arith)
            requires
                z == k * (ex * c),
        ;
        let h = ex * (c * 0x20_0000);
        assert(k * h <= k * v && k * h >= -(k * v)) by (nonlinear_arith)
            requires
                -v <= h <= v,
                k > 0,
        ;
        assert(k * v == m) by (nonlinear_arith)
            requires
                k == w * dp,
                v == dq * f,
                m == (w * f) * g,
                g == dp * dq,
        ;
    }
    assert(-(w * f) <= total * 0x8_0000 <= w * f) by (nonlinear_arith)
        requires
            total * g == x + y + z,
            -m <= x * 0x10_0000 <= m,
            -m <= y * 0x20_0000 <= m,
            -m <= z * 0x20_0000 <= m,
            m == (w * f) * g,
            g > 0,
    {
        assert((total * 0x8_0000) * g <= (w * f) * g);
        assert((total * 0x8_0000) * g >= (-(w * f)) * g);
    }
}

/// A click lands where the same fraction of the desktop is: where `at` is `n / d`, the
/// result is off from `n / d * extent / overlay + origin` by at most `2^-19` of a pixel.
pub proof fn law_click_accurate(at: Number, overlay: u32, extent: u32, origin: i32)
    requires
        overlay > 0,
        at is Finite,
        at.representable(),
        at.is_at_least_zero(),
        at.at_most(Number::integer(overlay as int)),
    ensures
        ({
            let r = placed(at, overlay, extent, origin);
            let n = at->significand * rounding::power(at->exponent);
            let d = rounding::power(-at->exponent);
            let f = (d * overlay) as int;
            let e = n * extent + origin * f;
            let u = number::signed(
                r.is_negative(),
                (r->significand * rounding::power(r->exponent)) as int,
            );
            let w = rounding::power(-r->exponent);
            &&& at.is_ratio(n, d) || at.is_zero() && n == 0 && d > 0
            &&& r is Finite
            &&& -(w * f) <= (u * f - e * w) * 0x8_0000 <= w * f
        }),
{
    if at.is_negative() {
        lemma_negative_zero(at, overlay, extent, origin);
        lemma_click_accurate(Number::zero(false), overlay, extent, origin);
        number::lemma_own_ratio(Number::zero(false));
    } else {
        lemma_click_accurate(at, overlay, extent, origin);
    }
}

/// The same of a position that has no sign.
proof fn lemma_click_accurate(at: Number, overlay: u32, extent: u32, origin: i32)
    requires
        overlay > 0,
        at is Finite,
        at.representable(),
        !at.is_negative(),
        at.at_most(Number::integer(overlay as int)),
    ensures
        ({
            let r = placed(at, overlay, extent, origin);
            let n = at->significand * rounding::power(at->exponent);
            let d = rounding::power(-at->exponent);
            let f = (d * overlay) as int;
            let e = n * extent + origin * f;
            let u = number::signed(
                r.is_negative(),
                (r->significand * rounding::power(r->exponent)) as int,
            );
            let w = rounding::power(-r->exponent);
            &&& at.is_ratio(n, d)
            &&& r is Finite
            &&& -(w * f) <= (u * f - e * w) * 0x8_0000 <= w * f
        }),
{
    lemma_inside(at, overlay, extent);
    lemma2_to64();
    lemma2_to64_rest();
    let (ov, ex, o) = (overlay as nat, extent as nat, origin as int);
    number::lemma_own_ratio(at);
    let (n, d) = (at->significand * rounding::power(at->exponent), rounding::power(-at->exponent));
    let f = d * ov;
    assert(f > 0) by (nonlinear_arith)
        requires
            f == d * ov,
            d > 0,
            ov > 0,
    ;
    let q = at.quotient(Number::integer(overlay as int));
    let p = q.product(Number::integer(extent as int));
    number::lemma_own_ratio(q);
    number::lemma_own_ratio(p);
    let (nq, dq) = (q->significand * rounding::power(q->exponent), rounding::power(-q->exponent));
    let (np, dp) = (p->significand * rounding::power(p->exponent), rounding::power(-p->exponent));
    number::lemma_rounded_error(n, f, 0);
    assert(nq * ex <= dq * 0x1_0000_0000) by (nonlinear_arith)
        requires
            nq <= dq,
            ex <= 0x1_0000_0000,
    ;
    number::lemma_rounded_error(nq * ex, dq, 32);
    number::lemma_sum(p, np, dp, o);
    let t = np + o * dp;
    let size = number::distance(t);
    assert(size <= dp * 0x2_0000_0000) by (nonlinear_arith)
        requires
            size == t || size == -t,
            t == np + o * dp,
            0 <= np <= ex * dp,
            ex <= 0x1_0000_0000,
            -0x8000_0000 <= o <= 0x7fff_ffff,
    {
        assert(ex * dp <= 0x1_0000_0000 * dp);
        assert(o * dp <= 0x7fff_ffff * dp);
        assert(o * dp >= -0x8000_0000 * dp);
    }
    number::lemma_rounded_error(size, dp, 33);
    let plus = Number::rounded(false, size, dp, 0);
    let r = placed(at, overlay, extent, origin);
    assert(r == if t < 0 {
        plus.negated()
    } else {
        plus
    });
    let (u0, w) = (r->significand * rounding::power(r->exponent), rounding::power(-r->exponent));
    rounding::lemma_scale_is_power(1, r->exponent);
    let u = number::signed(t < 0, u0 as int);
    let e = n * extent + o * f;
    let total = u * f - e * w;
    let a = u * dp - t * w;
    let b = np * dq - (nq * ex) * dp;
    let c = nq * f - n * dq;
    assert(-(w * dp) <= a * 0x10_0000 <= w * dp) by (nonlinear_arith)
        requires
            (u0 * dp) * 0x10_0000 <= (size * w) * 0x10_0000 + w * dp,
            (size * w) * 0x10_0000 <= (u0 * dp) * 0x10_0000 + w * dp,
            t < 0 && u == -u0 && size == -t || t >= 0 && u == u0 && size == t,
            a == u * dp - t * w,
    {
        if t < 0 {
            assert(a == size * w - u0 * dp);
        } else {
            assert(a == u0 * dp - size * w);
        }
    }
    assert(-(dp * dq) <= b * 0x20_0000 <= dp * dq) by (nonlinear_arith)
        requires
            (np * dq) * 0x20_0000 <= ((nq * ex) * dp) * 0x20_0000 + dp * dq,
            ((nq * ex) * dp) * 0x20_0000 <= (np * dq) * 0x20_0000 + dp * dq,
            b == np * dq - (nq * ex) * dp,
    ;
    assert(-(dq * f) <= c * 0x20_0000_0000_0000 <= dq * f) by (nonlinear_arith)
        requires
            (nq * f) * 0x20_0000_0000_0000 <= (n * dq) * 0x20_0000_0000_0000 + dq * f,
            (n * dq) * 0x20_0000_0000_0000 <= (nq * f) * 0x20_0000_0000_0000 + dq * f,
            c == nq * f - n * dq,
    ;
    assert(total * (dp * dq) == (a * dq) * f + (w * b) * f + (w * dp) * (ex * c)) by {
        // With t and e written out, both sides are the same sum of products.
        let (a1, a2) = (u * dp, t * w);
        assert((a * dq) * f == (a1 * dq) * f - (a2 * dq) * f) by (nonlinear_arith)
            requires
                a == a1 - a2,
        ;
        assert(((u * dp) * dq) * f == (u * f) * (dp * dq)) by (nonlinear_arith);
        assert(((t * w) * dq) * f == (t * f) * (w * dq)) by (nonlinear_arith);
        assert((t * f) * (w * dq) == (np * f) * (w * dq) + ((o * f) * w) * (dp * dq)) by (nonlinear_arith)
            requires
                t == np + o * dp,
        ;
        assert((w * b) * f == (np * f) * (w * dq) - ((nq * ex) * dp) * (w * f)) by (nonlinear_arith)
            requires
                b == np * dq - (nq * ex) * dp,
        ;
        let (c1, c2) = (nq * f, n * dq);
        assert((w * dp) * (ex * c) == (w * dp) * (ex * c1) - (w * dp) * (ex * c2)) by (nonlinear_arith)
            requires
                c == c1 - c2,
        ;
        assert((w * dp) * (ex * (nq * f)) == ((nq * ex) * dp) * (w * f)) by (nonlinear_arith);
        assert((w * dp) * (ex * (n * dq)) == ((n * ex) * w) * (dp * dq)) by (nonlinear_arith);
        assert((e * w) * (dp * dq) == ((n * ex) * w) * (dp * dq) + ((o * f) * w) * (dp * dq)) by (nonlinear_arith)
            requires
                e == n * ex + o * f,
        ;
        assert(total * (dp * dq) == (u * f) * (dp * dq) - (e * w) * (dp * dq)) by (nonlinear_arith)
            requires
                total == u * f - e * w,
        ;
    }
    lemma_errors_add(
        a,
        b,
        c,
        total,
        w as int,
        f as int,
        dp as int,
        dq as int,
        ex as int,
    );
    number::lemma_rounded_representable(t < 0, size, dp, 0);
}

/// What `as` makes of an integer is the one 32-bit integer of the other kind that differs from
/// it by a multiple of `2^32`.
pub proof fn law_wrapped(u: u32, i: i32)
    ensures
        i32::MIN <= wrapped_i32(u) <= i32::MAX,
        (u - wrapped_i32(u)) % 0x1_0000_0000 == 0,
        0 <= wrapped_u32(i as int) <= u32::MAX,
        (wrapped_u32(i as int) - i) % 0x1_0000_0000 == 0,
{
}

/// The bounding box of monitors can be computed whenever their edges, and the distances between
/// their edges, are 32-bit numbers.
pub proof fn law_bounds_can_be_computed(ms: Seq<Monitor>)
    requires
        forall|i: int|
            0 <= i < ms.len() ==> (#[trigger] ms[i]).width <= i32::MAX && ms[i].height <= i32::MAX
                && ms[i].x + ms[i].width <= i32::MAX && ms[i].y + ms[i].height <= i32::MAX,
        forall|i: int, j: int|
            #![trigger ms[i], ms[j]]
            0 <= i < ms.len() && 0 <= j < ms.len() ==> ms[i].x + ms[i].width - ms[j].x <= i32::MAX
                && ms[i].y + ms[i].height - ms[j].y <= i32::MAX,
    ensures
        edges_fit(ms),
        extent_fits(ms),
{
    if ms.len() > 0 {
        lefts(ms).min_ensures();
        tops(ms).min_ensures();
        rights(ms).max_ensures();
        bottoms(ms).max_ensures();
        let a = choose|j: int| 0 <= j < ms.len() && lefts(ms)[j] == lefts(ms).min();
        let b = choose|j: int| 0 <= j < ms.len() && tops(ms)[j] == tops(ms).min();
        let c = choose|j: int| 0 <= j < ms.len() && rights(ms)[j] == rights(ms).max();
        let d = choose|j: int| 0 <= j < ms.len() && bottoms(ms)[j] == bottoms(ms).max();
        assert(ms[a].x == lefts(ms).min() && ms[b].y == tops(ms).min());
        assert(ms[c].right() == rights(ms).max() && ms[d].bottom() == bottoms(ms).max());
        assert(lefts(ms)[c] == ms[c].x && tops(ms)[d] == ms[d].y);
    }
}

/// A click is mapped to the part of the desktop that it is of the overlay, from where the
/// desktop begins, each step computed in doubles.
pub proof fn law_click_in_doubles(at: Number, overlay: u32, extent: u32, origin: i32)
    ensures
        ({
            let part = at.quotient(Number::integer(overlay as int));
            let distance = part.product(Number::integer(extent as int));
            placed(at, overlay, extent, origin) == distance.sum(Number::integer(origin as int))
        }),
{
}

} // verus!
