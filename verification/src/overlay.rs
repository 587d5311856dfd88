//! What the overlay window shows, and how it answers the pointer and the keyboard.
use crate::double::Double;
use crate::number::{self, Number};
use crate::render;
use vstd::arithmetic::power2::*;
use vstd::prelude::*;

verus! {

/// Result of the overlay interaction.
#[derive(Debug, Clone, Copy, PartialEq, Eq, Structural)]
pub enum OverlayResult {
    /// User clicked at these overlay-local coordinates.
    Click { x: Double, y: Double },
    /// User dismissed the overlay (Escape pressed).
    Dismissed,
}

/// Why there is no result.
#[derive(Debug, Clone, Copy, PartialEq, Eq, Structural)]
pub enum OverlayError {
    /// The overlay was closed before the user did anything.
    NoResult,
}

impl OverlayError {
    pub fn message(self) -> (s: String)
        ensures
            s@ == "Overlay closed without result"@,
    {
        "Overlay closed without result".to_owned()
    }
}

/// The code of the left mouse button (BTN_LEFT).
pub const LEFT_BUTTON: u32 = 272;

/// The code of the Escape key (XK_Escape).
pub const ESCAPE: u32 = 0xff1b;

/// What a pointer did.
#[derive(Debug, Clone, Copy, PartialEq, Eq, Structural)]
pub enum PointerEventKind {
    /// It moved.
    Motion,
    /// A button was pressed.
    Press { button: u32 },
    /// It left the overlay.
    Leave,
    /// Anything else.
    Other,
}

/// What a pointer did, and where on the overlay.
#[derive(Debug, Clone, Copy, PartialEq, Eq, Structural)]
pub struct PointerEvent {
    pub x: Double,
    pub y: Double,
    pub kind: PointerEventKind,
}

impl PointerEvent {
    pub open spec fn wf(self) -> bool {
        self.x.wf() && self.y.wf()
    }

    /// Whether the event is a click: a press of the left button.
    pub open spec fn is_click(self) -> bool {
        self.kind == PointerEventKind::Press { button: LEFT_BUTTON }
    }

    /// Whether the event has a position: not both coordinates are zero.
    pub open spec fn has_position(self) -> bool {
        !self.x@.is_zero() || !self.y@.is_zero()
    }

    /// Whether the event ends the interaction.
    pub open spec fn is_decisive(self) -> bool {
        self.is_click() || self.kind is Leave
    }
}

/// An input device that a seat offers.
#[derive(Debug, Clone, Copy, PartialEq, Eq, Structural)]
pub enum Capability {
    Keyboard,
    Pointer,
    Other,
}

/// How far the interaction with the overlay has come.
#[derive(Debug, Clone, Copy, PartialEq, Eq, Structural)]
pub struct Interaction {
    pub result: Option<OverlayResult>,
    pub running: bool,
    pub configured: bool,
    /// Where the pointer was last seen; negative before it was.
    pub pointer_x: Double,
    pub pointer_y: Double,
    pub needs_redraw: bool,
    /// Whether a keyboard is held.
    pub keyboard: bool,
    /// Whether a pointer is held.
    pub pointer: bool,
}

impl Interaction {
    /// The overlay runs until there is a result, and no longer.
    pub open spec fn wf(self) -> bool {
        &&& self.running == (self.result is None)
        &&& self.pointer_x.wf() && self.pointer_y.wf()
        &&& self.result matches Some(OverlayResult::Click { x, y }) ==> x.wf() && y.wf()
    }

    /// The interaction with a result.
    pub open spec fn ended(self, result: OverlayResult) -> Interaction {
        Interaction { result: Some(result), running: false, ..self }
    }

    /// Where a click counts: where the event says, or where the pointer was last seen, if
    /// the event has no position.
    pub open spec fn click(self, e: PointerEvent) -> OverlayResult {
        if e.has_position() {
            OverlayResult::Click { x: e.x, y: e.y }
        } else {
            OverlayResult::Click { x: self.pointer_x, y: self.pointer_y }
        }
    }

    /// The interaction after one pointer event.
    pub open spec fn pointed(self, e: PointerEvent) -> Interaction {
        if e.kind is Motion {
            Interaction { pointer_x: e.x, pointer_y: e.y, needs_redraw: true, ..self }
        } else if e.is_click() {
            self.ended(self.click(e))
        } else if e.kind is Leave {
            self.ended(OverlayResult::Dismissed)
        } else {
            self
        }
    }

    /// The interaction after pointer events, one after the other.
    pub open spec fn pointed_all(self, es: Seq<PointerEvent>) -> Interaction
        decreases es.len(),
    {
        if es.len() == 0 {
            self
        } else {
            self.pointed_all(es.drop_last()).pointed(es.last())
        }
    }

    /// The interaction before anything has happened.
    pub fn new() -> (r: Interaction)
        ensures
            r.wf(),
            r == (Interaction {
                result: None,
                running: true,
                configured: false,
                pointer_x: r.pointer_x,
                pointer_y: r.pointer_y,
                needs_redraw: false,
                keyboard: false,
                pointer: false,
            }),
            r.pointer_x@ == Number::integer(-1),
            r.pointer_y@ == Number::integer(-1),
    {
        Interaction {
            result: None,
            running: true,
            configured: false,
            pointer_x: Double::integer(-1),
            pointer_y: Double::integer(-1),
            needs_redraw: false,
            keyboard: false,
            pointer: false,
        }
    }

    /// The window is asked to close: that dismisses the overlay.
    pub fn request_close(&mut self)
        requires
            old(self).wf(),
        ensures
            final(self).wf(),
            *final(self) == old(self).ended(OverlayResult::Dismissed),
    {
        self.running = false;
        self.result = Some(OverlayResult::Dismissed);
    }

    /// The window has been given its place. It is to be drawn now.
    pub fn configure(&mut self)
        requires
            old(self).wf(),
        ensures
            final(self).wf(),
            *final(self) == (Interaction { configured: true, ..*old(self) }),
    {
        self.configured = true;
    }

    /// Whether the overlay is to be drawn when the next frame is due.
    pub fn frame(&self) -> (b: bool)
        ensures
            b == self.needs_redraw,
    {
        self.needs_redraw
    }

    /// The overlay has been drawn.
    pub fn drawn(&mut self)
        requires
            old(self).wf(),
        ensures
            final(self).wf(),
            *final(self) == (Interaction { needs_redraw: false, ..*old(self) }),
    {
        self.needs_redraw = false;
    }

    /// The keyboard focus is lost: that dismisses the overlay.
    pub fn leave(&mut self)
        requires
            old(self).wf(),
        ensures
            final(self).wf(),
            *final(self) == old(self).ended(OverlayResult::Dismissed),
    {
        self.result = Some(OverlayResult::Dismissed);
        self.running = false;
    }

    /// A key is pressed: Escape dismisses the overlay, no other key does anything.
    pub fn press_key(&mut self, keysym: u32)
        requires
            old(self).wf(),
        ensures
            final(self).wf(),
            *final(self) == if keysym == ESCAPE {
                old(self).ended(OverlayResult::Dismissed)
            } else {
                *old(self)
            },
    {
        if keysym == ESCAPE {
            self.result = Some(OverlayResult::Dismissed);
            self.running = false;
        }
    }

    /// The pointer does something, or several things at once.
    pub fn pointer_frame(&mut self, events: &[PointerEvent])
        requires
            old(self).wf(),
            forall|i: int| 0 <= i < events@.len() ==> (#[trigger] events@[i]).wf(),
        ensures
            final(self).wf(),
            *final(self) == old(self).pointed_all(events@),
    {
        let ghost before = *self;
        let mut i: usize = 0;
        assert(events@.take(0) =~= Seq::<PointerEvent>::empty());
        while i < events.len()
            invariant
                i <= events@.len(),
                forall|k: int| 0 <= k < events@.len() ==> (#[trigger] events@[k]).wf(),
                self.wf(),
                *self == before.pointed_all(events@.take(i as int)),
            decreases events@.len() - i,
        {
            let event: PointerEvent = events[i];
            proof {
                let t = events@.take(i + 1);
                assert(t.drop_last() =~= events@.take(i as int));
                assert(t.last() == event);
                assert(event.wf());
            }
            match event.kind {
                PointerEventKind::Motion => {
                    self.pointer_x = event.x;
                    self.pointer_y = event.y;
                    self.needs_redraw = true;
                },
                PointerEventKind::Press { button } => {
                    if button == LEFT_BUTTON {
                        let (x, y) = if !event.x.is_zero() || !event.y.is_zero() {
                            (event.x, event.y)
                        } else {
                            (self.pointer_x, self.pointer_y)
                        };
                        self.result = Some(OverlayResult::Click { x, y });
                        self.running = false;
                    }
                },
                PointerEventKind::Leave => {
                    self.result = Some(OverlayResult::Dismissed);
                    self.running = false;
                },
                PointerEventKind::Other => {},
            }
            i = i + 1;
        }
        assert(events@.take(i as int) =~= events@);
    }

    /// A seat offers an input device. Whether it is to be acquired: the first keyboard and
    /// the first pointer are, and are held from then on.
    pub fn new_capability(&mut self, capability: Capability) -> (acquire: bool)
        requires
            old(self).wf(),
        ensures
            final(self).wf(),
            acquire == match capability {
                Capability::Keyboard => !old(self).keyboard,
                Capability::Pointer => !old(self).pointer,
                Capability::Other => false,
            },
            *final(self) == (Interaction {
                keyboard: old(self).keyboard || capability is Keyboard,
                pointer: old(self).pointer || capability is Pointer,
                ..*old(self)
            }),
    {
        match capability {
            Capability::Keyboard => {
                let acquire = !self.keyboard;
                self.keyboard = true;
                acquire
            },
            Capability::Pointer => {
                let acquire = !self.pointer;
                self.pointer = true;
                acquire
            },
            Capability::Other => false,
        }
    }

    /// A seat takes an input device away: it is no longer held.
    pub fn remove_capability(&mut self, capability: Capability)
        requires
            old(self).wf(),
        ensures
            final(self).wf(),
            *final(self) == (Interaction {
                keyboard: old(self).keyboard && !(capability is Keyboard),
                pointer: old(self).pointer && !(capability is Pointer),
                ..*old(self)
            }),
    {
        match capability {
            Capability::Keyboard => {
                self.keyboard = false;
            },
            Capability::Pointer => {
                self.pointer = false;
            },
            Capability::Other => {},
        }
    }

    /// What came of the interaction.
    pub fn finish(&self) -> (r: Result<OverlayResult, OverlayError>)
        ensures
            match self.result {
                Some(result) => r == Ok::<OverlayResult, OverlayError>(result),
                None => r == Err::<OverlayResult, OverlayError>(OverlayError::NoResult),
            },
    {
        match self.result {
            Some(result) => Ok(result),
            None => Err(OverlayError::NoResult),
        }
    }
}

/// An overlay that no longer runs has a result.
pub proof fn law_ended_has_result(s: Interaction)
    requires
        s.wf(),
        !s.running,
    ensures
        s.result is Some,
{
}

/// A click that has a position is reported where it was, whatever the pointer did before.
pub proof fn law_click_is_reported(s: Interaction, es: Seq<PointerEvent>, e: PointerEvent)
    requires
        e.is_click(),
        e.has_position(),
    ensures
        s.pointed_all(es.push(e)).result == Some(OverlayResult::Click { x: e.x, y: e.y }),
        !s.pointed_all(es.push(e)).running,
{
    assert(es.push(e).drop_last() =~= es);
}

/// A click that has no position is reported where the pointer moved to last.
pub proof fn law_click_where_pointer_was(
    s: Interaction,
    es: Seq<PointerEvent>,
    moved: PointerEvent,
    later: Seq<PointerEvent>,
    e: PointerEvent,
)
    requires
        moved.kind is Motion,
        forall|i: int| 0 <= i < later.len() ==> !((#[trigger] later[i]).kind is Motion),
        e.is_click(),
        !e.has_position(),
    ensures
        s.pointed_all(es.push(moved) + later.push(e)).result == Some(
            OverlayResult::Click { x: moved.x, y: moved.y },
        ),
{
    let (a, b) = (es.push(moved), later.push(e));
    let t = s.pointed_all(a);
    assert(a.drop_last() =~= es);
    assert(t == s.pointed_all(es).pointed(moved));
    law_batches(s, a, b);
    assert(b.drop_last() =~= later);
    lemma_pointer_rests(t, later);
    assert(t.pointed_all(b) == t.pointed_all(later).pointed(e));
}

/// Only motion moves the pointer.
proof fn lemma_pointer_rests(s: Interaction, es: Seq<PointerEvent>)
    requires
        forall|i: int| 0 <= i < es.len() ==> !((#[trigger] es[i]).kind is Motion),
    ensures
        s.pointed_all(es).pointer_x == s.pointer_x,
        s.pointed_all(es).pointer_y == s.pointer_y,
    decreases es.len(),
{
    if es.len() > 0 {
        assert forall|i: int| 0 <= i < es.drop_last().len() implies !((
        #[trigger] es.drop_last()[i]).kind is Motion) by {
            assert(!(es[i].kind is Motion));
        }
        lemma_pointer_rests(s, es.drop_last());
        assert(!(es[es.len() - 1].kind is Motion));
    }
}

/// Leaving the overlay dismisses it, whatever the pointer did before.
pub proof fn law_leaving_dismisses(s: Interaction, es: Seq<PointerEvent>, e: PointerEvent)
    requires
        e.kind is Leave,
    ensures
        s.pointed_all(es.push(e)).result == Some(OverlayResult::Dismissed),
        !s.pointed_all(es.push(e)).running,
{
    assert(es.push(e).drop_last() =~= es);
}

/// Nothing but a click and leaving the overlay decides anything.
pub proof fn law_only_decisive_events_end(s: Interaction, es: Seq<PointerEvent>)
    requires
        forall|i: int| 0 <= i < es.len() ==> !(#[trigger] es[i]).is_decisive(),
    ensures
        s.pointed_all(es).result == s.result,
        s.pointed_all(es).running == s.running,
    decreases es.len(),
{
    if es.len() > 0 {
        assert forall|i: int| 0 <= i < es.drop_last().len() implies !(
        #[trigger] es.drop_last()[i]).is_decisive() by {
            assert(!es[i].is_decisive());
        }
        law_only_decisive_events_end(s, es.drop_last());
        assert(!es[es.len() - 1].is_decisive());
    }
}

/// Events that arrive in two batches are handled as if they came in one.
pub proof fn law_batches(s: Interaction, a: Seq<PointerEvent>, b: Seq<PointerEvent>)
    ensures
        s.pointed_all(a + b) == s.pointed_all(a).pointed_all(b),
    decreases b.len(),
{
    if b.len() > 0 {
        law_batches(s, a, b.drop_last());
        assert((a + b).drop_last() =~= a + b.drop_last());
        assert((a + b).last() == b.last());
    } else {
        assert(a + b =~= a);
    }
}

/// The dark gray that is shown where there are no pixels to show.
pub open spec fn blank_color() -> Seq<u8> {
    seq![0x20u8, 0x20u8, 0x20u8, 0xffu8]
}

/// How many bytes the picture of a window takes.
pub open spec fn window_bytes(width: u32, height: u32) -> int {
    width * 4 * height
}

/// Whether the size of a window and that of its picture are `i32`s.
pub open spec fn window_fits(width: u32, height: u32) -> bool {
    &&& width * 4 <= i32::MAX
    &&& height <= i32::MAX
    &&& window_bytes(width, height) <= i32::MAX
}

/// Whether the size of a window and that of its picture are `i32`s.
pub fn can_show(width: u32, height: u32) -> (b: bool)
    ensures
        b == window_fits(width, height),
{
    assert(0 <= width * 4 * height <= 0xffff_ffff * 4 * 0xffff_ffff) by (nonlinear_arith)
        requires
            0 <= width <= 0xffff_ffff,
            0 <= height <= 0xffff_ffff,
    ;
    let bytes: u128 = (width as u128) * 4 * (height as u128);
    width as u64 * 4 <= i32::MAX as u64 && height <= i32::MAX as u32 && bytes <= i32::MAX as u128
}

/// A canvas with the pixels copied to it, if they are as many as the window has; else all
/// in one color.
pub open spec fn filled(canvas: Seq<u8>, pixel_data: Seq<u8>, width: u32, height: u32) -> Seq<u8> {
    let n = window_bytes(width, height);
    if pixel_data.len() == n {
        pixel_data + canvas.skip(n)
    } else {
        render::painted(canvas, |p: int| true, blank_color())
    }
}

/// Whether the pointer has been seen: neither coordinate is negative.
pub open spec fn pointer_seen(x: Number, y: Number) -> bool {
    x.is_at_least_zero() && y.is_at_least_zero()
}

/// The column or the row that a coordinate lies in.
pub open spec fn cell(v: Number) -> u32 {
    v.truncated(0, u32::MAX as int) as u32
}

/// A canvas with the overlay drawn on it: the pixels of the thumbnail, and a crosshair where
/// the pointer is, if it has been seen.
pub open spec fn drawn_on(
    canvas: Seq<u8>,
    pixel_data: Seq<u8>,
    width: u32,
    height: u32,
    x: Number,
    y: Number,
) -> Seq<u8> {
    let picture = filled(canvas, pixel_data, width, height);
    if pointer_seen(x, y) {
        render::with_crosshair(picture, width, height, cell(x), cell(y))
    } else {
        picture
    }
}

/// Draws the overlay: the pixels of the thumbnail, and a crosshair where the pointer is.
pub fn paint_frame(
    canvas: &mut [u8],
    pixel_data: &[u8],
    width: u32,
    height: u32,
    pointer_x: Double,
    pointer_y: Double,
)
    requires
        window_fits(width, height),
        pixel_data@.len() == window_bytes(width, height) ==> pixel_data@.len() <= old(canvas)@.len(),
        pointer_x.wf(),
        pointer_y.wf(),
        pointer_seen(pointer_x@, pointer_y@) ==> render::crosshair_fits(
            width,
            height,
            cell(pointer_x@),
            cell(pointer_y@),
        ),
    ensures
        final(canvas)@ == {
            let picture = filled(old(canvas)@, pixel_data@, width, height);
            if pointer_seen(pointer_x@, pointer_y@) {
                render::with_crosshair(
                    picture,
                    width,
                    height,
                    cell(pointer_x@),
                    cell(pointer_y@),
                )
            } else {
                picture
            }
        },
        final(canvas)@ == drawn_on(
            old(canvas)@,
            pixel_data@,
            width,
            height,
            pointer_x@,
            pointer_y@,
        ),
{
    let ghost before = canvas@;
    let n: u32 = width * 4 * height;
    if pixel_data.len() == n as usize {
        let mut i: usize = 0;
        while i < pixel_data.len()
            invariant
                i <= pixel_data@.len() <= before.len(),
                canvas@.len() == before.len(),
                forall|k: int| 0 <= k < i ==> canvas@[k] == pixel_data@[k],
                forall|k: int| i <= k < before.len() ==> canvas@[k] == before[k],
            decreases pixel_data@.len() - i,
        {
            canvas[i] = pixel_data[i];
            i = i + 1;
        }
    } else {
        let mut i: usize = 0;
        while canvas.len() - i >= 4
            invariant
                i % 4 == 0,
                i <= canvas@.len() == before.len(),
                forall|k: int| 0 <= k < i ==> canvas@[k] == blank_color()[k % 4],
                forall|k: int| i <= k < before.len() ==> canvas@[k] == before[k],
            decreases canvas@.len() - i,
        {
            canvas[i] = 0x20;
            canvas[i + 1] = 0x20;
            canvas[i + 2] = 0x20;
            canvas[i + 3] = 0xff;
            i = i + 4;
        }
    }
    assert(canvas@ =~= filled(before, pixel_data@, width, height));
    if pointer_x.is_at_least_zero() && pointer_y.is_at_least_zero() {
        let cx: u32 = pointer_x.to_u32();
        let cy: u32 = pointer_y.to_u32();
        render::draw_crosshair(canvas, width, height, cx, cy);
    }
}

/// The window shows the thumbnail: wherever there are as many pixels as the window has, every
/// pixel of the window is that of the thumbnail, but for those that a crosshair with arms of
/// ten pixels covers, which is at the pointer if that has been seen. Bytes after the window
/// stay as they are.
pub proof fn law_window_shows_thumbnail(
    canvas: Seq<u8>,
    pixel_data: Seq<u8>,
    width: u32,
    height: u32,
    px: Number,
    py: Number,
    x: int,
    y: int,
    c: int,
)
    requires
        pixel_data.len() == width * height * 4,
        pixel_data.len() <= canvas.len(),
        0 <= x < width,
        0 <= y < height,
        0 <= c < 4,
    ensures
        ({
            let shown = drawn_on(canvas, pixel_data, width, height, px, py);
            let i = (y * width + x) * 4 + c;
            let (cx, cy) = (
                px.truncated(0, u32::MAX as int),
                py.truncated(0, u32::MAX as int),
            );
            let seen = Number::zero(false).at_most(px) && Number::zero(false).at_most(py);
            let hit = y == cy && -10 <= x - cx <= 10 || x == cx && -10 <= y - cy <= 10;
            &&& shown.len() == canvas.len()
            &&& 0 <= i < pixel_data.len()
            &&& !(seen && hit) ==> shown[i] == pixel_data[i]
            &&& seen && hit ==> shown[i] == seq![0x00u8, 0x00u8, 0xffu8, 0xccu8][c]
            &&& forall|k: int|
                pixel_data.len() <= k < canvas.len() ==> #[trigger] shown[k] == canvas[k]
        }),
{
    let picture = filled(canvas, pixel_data, width, height);
    assert(width * 4 * height == width * height * 4) by (nonlinear_arith);
    render::lemma_index(width as int, height as int, x, y, c);
    render::law_crosshair(picture, width, height, cell(px), cell(py), x, y, c);
    lemma_at_least_zero(px);
    lemma_at_least_zero(py);
    lemma_cell(px);
    lemma_cell(py);
    let t = render::with_crosshair(picture, width, height, cell(px), cell(py));
    assert forall|k: int| pixel_data.len() <= k < canvas.len() implies #[trigger] drawn_on(
        canvas,
        pixel_data,
        width,
        height,
        px,
        py,
    )[k] == canvas[k] by {
        assert(t[k] == picture[k]);
        assert(picture[k] == canvas[k]);
    }
}

/// Where there are not as many pixels as the window has, the canvas is dark gray, but for a
/// crosshair at the pointer.
pub proof fn law_window_without_thumbnail(
    canvas: Seq<u8>,
    pixel_data: Seq<u8>,
    width: u32,
    height: u32,
    px: Number,
    py: Number,
    i: int,
)
    requires
        pixel_data.len() != width * height * 4,
        0 <= i < canvas.len(),
        !(Number::zero(false).at_most(px) && Number::zero(false).at_most(py)),
    ensures
        ({
            let shown = drawn_on(canvas, pixel_data, width, height, px, py);
            &&& shown.len() == canvas.len()
            &&& i - i % 4 + 4 <= canvas.len() ==> shown[i] == if i % 4 == 3 {
                0xffu8
            } else {
                0x20u8
            }
            &&& i - i % 4 + 4 > canvas.len() ==> shown[i] == canvas[i]
        }),
{
    assert(width * 4 * height == width * height * 4) by (nonlinear_arith);
    lemma_at_least_zero(px);
    lemma_at_least_zero(py);
    render::law_painted(canvas, |p: int| true, blank_color());
}

proof fn lemma_at_least_zero(v: Number)
    ensures
        v.is_at_least_zero() == Number::zero(false).at_most(v),
{
    match v {
        Number::Finite { negative, significand, exponent } => {
            let k = number::lesser(0, exponent);
            let p = pow2((exponent - k) as nat);
            lemma_pow2_pos((exponent - k) as nat);
            assert(significand > 0 ==> significand * p > 0) by (nonlinear_arith)
                requires
                    p > 0,
            ;
            assert(0 * p == 0 && 0 * pow2((0 - k) as nat) == 0) by (nonlinear_arith);
        },
        _ => {},
    }
}

proof fn lemma_cell(v: Number)
    ensures
        cell(v) == v.truncated(0, u32::MAX as int),
{
}

/// A picture of a window has four bytes for each pixel, and a window can be shown if they are
/// not too many.
pub proof fn law_window_size(width: u32, height: u32)
    ensures
        window_bytes(width, height) == width * height * 4,
        width > 0 && height > 0 ==> window_fits(width, height) == (width * height * 4 <= i32::MAX),
{
    assert(width * 4 * height == width * height * 4) by (nonlinear_arith);
    if width > 0 && height > 0 {
        assert(width <= width * height && height <= width * height) by (nonlinear_arith)
            requires
                width > 0,
                height > 0,
        ;
    }
}

/// What an event of the pointer does: motion moves the pointer and asks for a redraw, a press
/// of the left button ends the overlay with a click, leaving dismisses it, and nothing else
/// does anything. None of them touches anything else.
pub proof fn law_pointer_event(s: Interaction, e: PointerEvent)
    ensures
        ({
            let t = s.pointed_all(seq![e]);
            let origin = e.x@ is Finite && e.x@->significand == 0 && e.y@ is Finite
                && e.y@->significand == 0;
            let button = e.kind->button;
            &&& t.configured == s.configured && t.keyboard == s.keyboard && t.pointer == s.pointer
            &&& e.kind is Motion ==> {
                &&& t.pointer_x == e.x && t.pointer_y == e.y && t.needs_redraw
                &&& t.result == s.result && t.running == s.running
            }
            &&& !(e.kind is Motion) ==> {
                &&& t.pointer_x == s.pointer_x && t.pointer_y == s.pointer_y
                &&& t.needs_redraw == s.needs_redraw
            }
            &&& e.kind is Press && button == 0x110 ==> !t.running && t.result == Some(
                if origin {
                    OverlayResult::Click { x: s.pointer_x, y: s.pointer_y }
                } else {
                    OverlayResult::Click { x: e.x, y: e.y }
                },
            )
            &&& e.kind is Leave ==> !t.running && t.result == Some(OverlayResult::Dismissed)
            &&& e.kind is Press && button != 0x110 || e.kind is Other ==> t == s
        }),
{
    let es = seq![e];
    assert(es.drop_last() =~= Seq::empty());
    assert(es.last() == e);
    reveal_with_fuel(Interaction::pointed_all, 2);
    assert(s.pointed_all(es) == s.pointed(e));
}

/// Ending the overlay gives it a result and stops it, and touches nothing else.
pub proof fn law_ended(s: Interaction, r: OverlayResult)
    ensures
        s.ended(r).result == Some(r),
        !s.ended(r).running,
        s.ended(r).configured == s.configured,
        s.ended(r).pointer_x == s.pointer_x,
        s.ended(r).pointer_y == s.pointer_y,
        s.ended(r).needs_redraw == s.needs_redraw,
        s.ended(r).keyboard == s.keyboard,
        s.ended(r).pointer == s.pointer,
        ESCAPE == 0xff1b,
{
}

/// An interaction is well-formed if it runs just as long as there is no result, and its
/// positions are doubles.
pub proof fn law_interaction_is_wf(s: Interaction)
    requires
        s.pointer_x.wf(),
        s.pointer_y.wf(),
        s.running <==> s.result is None,
        s.result matches Some(OverlayResult::Click { x, y }) ==> x.wf() && y.wf(),
    ensures
        s.wf(),
{
}

/// The crosshair is all that the pointer adds to what is shown.
pub proof fn law_pointer_adds_crosshair(
    canvas: Seq<u8>,
    pixel_data: Seq<u8>,
    width: u32,
    height: u32,
    px: Number,
    py: Number,
    qx: Number,
    qy: Number,
)
    requires
        Number::zero(false).at_most(px),
        Number::zero(false).at_most(py),
        !Number::zero(false).at_most(qx),
    ensures
        drawn_on(canvas, pixel_data, width, height, px, py) == render::with_crosshair(
            drawn_on(canvas, pixel_data, width, height, qx, qy),
            width,
            height,
            px.truncated(0, u32::MAX as int) as u32,
            py.truncated(0, u32::MAX as int) as u32,
        ),
        drawn_on(canvas, pixel_data, width, height, qx, qy) == drawn_on(
            canvas,
            pixel_data,
            width,
            height,
            qy,
            qx,
        ),
{
    lemma_at_least_zero(px);
    lemma_at_least_zero(py);
    lemma_at_least_zero(qx);
}

/// An event is well-formed if its position is one of doubles.
pub proof fn law_event_is_wf(e: PointerEvent)
    ensures
        e.wf() == (e.x.wf() && e.y.wf()),
{
}

} // verus!
