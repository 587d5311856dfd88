//! Pixels of the overlay thumbnail.
//!
//! A picture is a sequence of bytes, four for each pixel (blue, green, red, alpha), row
//! by row. A pixel goes by its index: that of column `x` in row `y` is
//! `y * width + x`.
use vstd::arithmetic::div_mod::*;
use vstd::prelude::*;

verus! {

/// The picture with some pixels in one color. A pixel of which not all four bytes are
/// there is left as it is.
pub open spec fn painted(old: Seq<u8>, touched: spec_fn(int) -> bool, color: Seq<u8>) -> Seq<u8> {
    Seq::new(
        old.len(),
        |i: int|
            if touched(i / 4) && i / 4 * 4 + 3 < old.len() {
                color[i % 4]
            } else {
                old[i]
            },
    )
}

/// Pixels chosen in two ways that agree are painted alike.
proof fn lemma_painted_alike(
    old: Seq<u8>,
    f: spec_fn(int) -> bool,
    g: spec_fn(int) -> bool,
    color: Seq<u8>,
)
    requires
        forall|q: int| q >= 0 ==> #[trigger] f(q) == g(q),
    ensures
        painted(old, f, color) == painted(old, g, color),
{
    assert(painted(old, f, color) =~= painted(old, g, color));
}

fn put_pixel(pixels: &mut [u8], p: u32, color: [u8; 4])
    requires
        p * 4 <= u32::MAX,
    ensures
        final(pixels)@ == painted(old(pixels)@, |q: int| q == p, color@),
{
    let offset: usize = (p * 4) as usize;
    if offset + 3 < pixels.len() {
        pixels[offset] = color[0];
        pixels[offset + 1] = color[1];
        pixels[offset + 2] = color[2];
        pixels[offset + 3] = color[3];
    }
    assert(pixels@ =~= painted(old(pixels)@, |q: int| q == p, color@));
}

/// The dark gray of the border.
pub open spec fn border_color() -> Seq<u8> {
    seq![0x40u8, 0x40u8, 0x40u8, 0xffu8]
}

/// Whether a pixel lies within `border` columns or rows of an edge of the picture.
pub open spec fn in_border(p: int, width: int, height: int, border: int) -> bool {
    let (x, y) = (p % width, p / width);
    0 <= p < width * height && (x < border || x >= width - border || y < border || y >= height
        - border)
}

/// Add a subtle border/frame around the thumbnail to make it visually distinct.
/// Modifies the pixel buffer in-place.
pub fn add_border(pixels: &mut [u8], width: u32, height: u32, border_width: u32)
    requires
        border_width > 0 && width > 0 && height > 0 ==> (width * height - 1) * 4 <= u32::MAX,
    ensures
        final(pixels)@ == painted(
            old(pixels)@,
            |p: int| in_border(p, width as int, height as int, border_width as int),
            border_color(),
        ),
{
    let ghost before = pixels@;
    let ghost (w, h, b) = (width as int, height as int, border_width as int);
    let color: [u8; 4] = [0x40, 0x40, 0x40, 0xff];
    assert(color@ =~= border_color());
    if border_width == 0 || width == 0 || height == 0 {
        proof {
            assert forall|q: int| q >= 0 implies !in_border(q, w, h, b) by {
                if 0 <= q < w * h {
                    assert(w > 0 && h > 0) by (nonlinear_arith)
                        requires
                            0 < w * h,
                            w >= 0,
                            h >= 0,
                    ;
                    lemma_column_and_row(q, w, h);
                }
            }
            assert(pixels@ =~= painted(before, |p: int| in_border(p, w, h, b), border_color()));
        }
        return;
    }
    let mut y: u32 = 0;
    let mut p: u32 = 0;
    let ghost none = |q: int| in_border(q, w, h, b) && q < 0;
    assert(pixels@ =~= painted(before, none, color@));
    assert(0 * w == 0) by (nonlinear_arith);
    while y < height
        invariant
            w == width,
            h == height,
            b == border_width,
            w > 0,
            0 <= y <= h,
            p == y * w,
            (w * h - 1) * 4 <= u32::MAX,
            pixels@ == painted(before, |q: int| in_border(q, w, h, b) && q < p, color@),
            color@ == border_color(),
        decreases h - y,
    {
        let mut x: u32 = 0;
        let ghost row = p as int;
        assert((y + 1) * w <= h * w && w * h == h * w && (y + 1) * w == y * w + w) by (nonlinear_arith)
            requires
                y + 1 <= h,
                w > 0,
        ;
        while x < width
            invariant
                w == width,
                h == height,
                b == border_width,
                0 <= x <= w,
                0 <= y < h,
                row == y * w,
                p == row + x,
                row + w <= w * h,
                (w * h - 1) * 4 <= u32::MAX,
                pixels@ == painted(before, |q: int| in_border(q, w, h, b) && q < p, color@),
                color@ == border_color(),
            decreases w - x,
        {
            proof {
                lemma_fundamental_div_mod_converse(p as int, w, y as int, x as int);
            }
            let ghost earlier = pixels@;
            if x < border_width || x >= width - border_width || y < border_width || y >= height
                - border_width {
                put_pixel(pixels, p, color);
                assert(pixels@ =~= painted(
                    before,
                    |q: int| in_border(q, w, h, b) && q < p + 1,
                    color@,
                ));
            } else {
                assert(pixels@ =~= painted(
                    before,
                    |q: int| in_border(q, w, h, b) && q < p + 1,
                    color@,
                ));
            }
            p = p + 1;
            x = x + 1;
        }
        y = y + 1;
    }
    proof {
        assert(h * w == w * h) by (nonlinear_arith);
        lemma_painted_alike(
            before,
            |q: int| in_border(q, w, h, b) && q < p,
            |q: int| in_border(q, w, h, b),
            border_color(),
        );
    }
}

/// The column and the row of a pixel.
proof fn lemma_column_and_row(p: int, width: int, height: int)
    requires
        0 <= p < width * height,
        width > 0,
    ensures
        0 <= p % width < width,
        0 <= p / width < height,
        p == p / width * width + p % width,
{
    lemma_fundamental_div_mod(p, width);
    lemma_mod_bound(p, width);
    let (q, r) = (p / width, p % width);
    assert(0 <= q < height && p == q * width + r) by (nonlinear_arith)
        requires
            p == width * q + r,
            0 <= r < width,
            0 <= p < width * height,
            width > 0,
    {
        if q >= height {
            assert(width * q >= width * height);
        }
        if q < 0 {
            assert(width * q <= -width);
        }
    }
}

/// The red of the crosshair, slightly transparent.
pub open spec fn crosshair_color() -> Seq<u8> {
    seq![0x00u8, 0x00u8, 0xffu8, 0xccu8]
}

/// The length of each arm of the crosshair.
pub const ARM: u32 = 10;

/// Whether a pixel lies on the horizontal stroke of a crosshair at column `cx` of row `cy`.
pub open spec fn on_horizontal(p: int, width: int, height: int, cx: int, cy: int) -> bool {
    width > 0 && cy < height && p / width == cy && cx - ARM <= p % width <= cx + ARM
}

/// Whether a pixel lies on the vertical stroke.
pub open spec fn on_vertical(p: int, width: int, height: int, cx: int, cy: int) -> bool {
    width > 0 && cx < width && p % width == cx && p / width < height && cy - ARM <= p / width <= cy
        + ARM
}

/// The lesser of two integers.
pub open spec fn lesser(a: int, b: int) -> int {
    if a <= b {
        a
    } else {
        b
    }
}

/// Whether a crosshair can be drawn in 32-bit arithmetic: the ends of its strokes and the
/// offsets of their pixels are `u32`s, and the picture is not empty where a stroke is.
pub open spec fn crosshair_fits(width: u32, height: u32, cx: u32, cy: u32) -> bool {
    &&& cy < height ==> {
        let end = lesser(cx + ARM, width - 1);
        width > 0 && cx + ARM <= u32::MAX && (cx - ARM <= end ==> (cy * width + end) * 4
            <= u32::MAX)
    }
    &&& cx < width ==> {
        let end = lesser(cy + ARM, height - 1);
        height > 0 && cy + ARM <= u32::MAX && (cy - ARM <= end ==> (end * width + cx) * 4
            <= u32::MAX)
    }
}

fn less(a: u32, b: u32) -> (r: u32)
    ensures
        r == lesser(a as int, b as int),
{
    if a <= b {
        a
    } else {
        b
    }
}

fn minus_arm(v: u32) -> (r: u32)
    ensures
        r == if v >= ARM {
            v - ARM
        } else {
            0
        },
{
    if v >= ARM {
        v - ARM
    } else {
        0
    }
}

/// The picture with a crosshair at column `cx` of row `cy`.
pub open spec fn with_crosshair(s: Seq<u8>, width: u32, height: u32, cx: u32, cy: u32) -> Seq<u8> {
    painted(
        s,
        |p: int|
            on_horizontal(p, width as int, height as int, cx as int, cy as int) || on_vertical(
                p,
                width as int,
                height as int,
                cx as int,
                cy as int,
            ),
        crosshair_color(),
    )
}

/// Draw a crosshair indicator at a specific position on the thumbnail.
/// Used to show where the cursor will land before clicking.
pub fn draw_crosshair(pixels: &mut [u8], width: u32, height: u32, cx: u32, cy: u32)
    requires
        crosshair_fits(width, height, cx, cy),
    ensures
        final(pixels)@ == with_crosshair(old(pixels)@, width, height, cx, cy),
{
    let ghost before = pixels@;
    let ghost (w, h, x0, y0) = (width as int, height as int, cx as int, cy as int);
    let ghost across = |p: int| on_horizontal(p, w, h, x0, y0);
    let color: [u8; 4] = [0x00, 0x00, 0xff, 0xcc];
    assert(color@ =~= crosshair_color());
    if cy < height {
        let start: u32 = minus_arm(cx);
        let end: u32 = less(cx + ARM, width - 1);
        let mut x: u32 = start;
        assert(pixels@ =~= painted(before, |q: int| across(q) && q % w < x, color@)) by {
            assert forall|q: int| q >= 0 && #[trigger] across(q) implies q % w >= x by {
                lemma_mod_bound(q, w);
            }
        }
        while x <= end
            invariant
                w == width,
                w > 0,
                y0 == cy,
                x0 == cx,
                h == height,
                y0 < h,
                start <= x <= end + 1 || x == start,
                start == if x0 >= ARM {
                    x0 - ARM
                } else {
                    0
                },
                end == lesser(x0 + ARM, w - 1),
                end < u32::MAX,
                start <= end ==> (y0 * w + end) * 4 <= u32::MAX,
                across == (|p: int| on_horizontal(p, w, h, x0, y0)),
                pixels@ == painted(before, |q: int| across(q) && q % w < x, color@),
            decreases end + 1 - x,
        {
            let ghost p = y0 * w + x;
            proof {
                lemma_fundamental_div_mod_converse(p, w, y0, x as int);
                assert(0 <= y0 * w) by (nonlinear_arith)
                    requires
                        y0 >= 0,
                        w > 0,
                ;
            }
            put_pixel(pixels, cy * width + x, color);
            proof {
                assert forall|q: int| q >= 0 implies (q == p) == (#[trigger] across(q) && q % w == x) by {
                    lemma_fundamental_div_mod(q, w);
                    if across(q) && q % w == x {
                        assert(q == p) by (nonlinear_arith)
                            requires
                                q == w * (q / w) + q % w,
                                q / w == y0,
                                q % w == x,
                                p == y0 * w + x,
                        ;
                    }
                }
                assert(pixels@ =~= painted(before, |q: int| across(q) && q % w < x + 1, color@));
            }
            x = x + 1;
        }
        proof {
            assert forall|q: int| q >= 0 && #[trigger] across(q) implies q % w < x by {
                lemma_mod_bound(q, w);
            }
            lemma_painted_alike(before, |q: int| across(q) && q % w < x, across, color@);
        }
    } else {
        assert(pixels@ =~= painted(before, across, color@));
    }
    let ghost middle = pixels@;
    let ghost down = |p: int| on_vertical(p, w, h, x0, y0);
    if cx < width {
        let start: u32 = minus_arm(cy);
        let end: u32 = less(cy + ARM, height - 1);
        let mut y: u32 = start;
        assert(pixels@ =~= painted(middle, |q: int| down(q) && q / w < y, color@)) by {
            assert forall|q: int| q >= 0 && #[trigger] down(q) implies q / w >= y by {
                lemma_div_pos_is_pos(q, w);
            }
        }
        while y <= end
            invariant
                w == width,
                w > 0,
                y0 == cy,
                x0 == cx,
                h == height,
                x0 < w,
                start <= y <= end + 1 || y == start,
                start == if y0 >= ARM {
                    y0 - ARM
                } else {
                    0
                },
                end == lesser(y0 + ARM, h - 1),
                end < u32::MAX,
                start <= end ==> (end * w + x0) * 4 <= u32::MAX,
                down == (|p: int| on_vertical(p, w, h, x0, y0)),
                pixels@ == painted(middle, |q: int| down(q) && q / w < y, color@),
            decreases end + 1 - y,
        {
            let ghost p = y * w + x0;
            proof {
                lemma_fundamental_div_mod_converse(p, w, y as int, x0);
                assert(0 <= y * w <= end * w) by (nonlinear_arith)
                    requires
                        0 <= y <= end,
                        w > 0,
                ;
            }
            put_pixel(pixels, y * width + cx, color);
            proof {
                assert forall|q: int| q >= 0 implies (q == p) == (#[trigger] down(q) && q / w == y) by {
                    lemma_fundamental_div_mod(q, w);
                    if down(q) && q / w == y {
                        assert(q == p) by (nonlinear_arith)
                            requires
                                q == w * (q / w) + q % w,
                                q / w == y,
                                q % w == x0,
                                p == y * w + x0,
                        ;
                    }
                }
                assert(pixels@ =~= painted(middle, |q: int| down(q) && q / w < y + 1, color@));
            }
            y = y + 1;
        }
        proof {
            lemma_painted_alike(middle, |q: int| down(q) && q / w < y, down, color@);
        }
    } else {
        assert(pixels@ =~= painted(middle, down, color@));
    }
    assert(pixels@ =~= with_crosshair(before, width, height, cx, cy));
}

/// Whether a crosshair can be drawn in 32-bit arithmetic.
pub fn can_draw_crosshair(width: u32, height: u32, cx: u32, cy: u32) -> (b: bool)
    ensures
        b == crosshair_fits(width, height, cx, cy),
{
    let max: u128 = u32::MAX as u128;
    if cy < height {
        if width == 0 || cx > u32::MAX - ARM {
            return false;
        }
        let end: u32 = less(cx + ARM, width - 1);
        assert(0 <= cy * width <= 0xffff_ffff * 0xffff_ffff) by (nonlinear_arith)
            requires
                0 <= cy <= 0xffff_ffff,
                0 <= width <= 0xffff_ffff,
        ;
        if minus_arm(cx) <= end && ((cy as u128) * (width as u128) + end as u128) * 4 > max {
            return false;
        }
    }
    if cx < width {
        if height == 0 || cy > u32::MAX - ARM {
            return false;
        }
        let end: u32 = less(cy + ARM, height - 1);
        assert(0 <= end * width <= 0xffff_ffff * 0xffff_ffff) by (nonlinear_arith)
            requires
                0 <= end <= 0xffff_ffff,
                0 <= width <= 0xffff_ffff,
        ;
        if minus_arm(cy) <= end && ((end as u128) * (width as u128) + cx as u128) * 4 > max {
            return false;
        }
    }
    true
}

/// A crosshair marks the pixel that it is drawn at, and nothing beyond the rows of the
/// picture.
pub proof fn law_crosshair_marks(s: Seq<u8>, width: u32, height: u32, cx: u32, cy: u32)
    requires
        cx < width,
        cy < height,
        width * height * 4 <= s.len(),
    ensures
        ({
            let p = cy * width + cx;
            forall|c: int|
                0 <= c < 4 ==> 0 <= p * 4 + c < s.len() && #[trigger] with_crosshair(
                    s,
                    width,
                    height,
                    cx,
                    cy,
                )[p * 4 + c] == crosshair_color()[c]
        }),
        forall|i: int|
            width * height * 4 <= i < s.len() ==> #[trigger] with_crosshair(
                s,
                width,
                height,
                cx,
                cy,
            )[i] == s[i],
{
    let (w, h) = (width as int, height as int);
    let p = cy * w + cx;
    lemma_fundamental_div_mod_converse(p, w, cy as int, cx as int);
    assert(0 <= p < w * h) by (nonlinear_arith)
        requires
            p == cy * w + cx,
            0 <= cx < w,
            0 <= cy < h,
    {
        assert(cy * w <= (h - 1) * w);
    }
    assert forall|i: int| w * h * 4 <= i < s.len() implies #[trigger] with_crosshair(
        s,
        width,
        height,
        cx,
        cy,
    )[i] == s[i] by {
        let q = i / 4;
        lemma_fundamental_div_mod(q, w);
        lemma_mod_bound(q, w);
        assert(q / w >= h) by (nonlinear_arith)
            requires
                q >= w * h,
                q == w * (q / w) + q % w,
                q % w < w,
                w > 0,
        {
            if q / w < h {
                assert(w * (q / w) <= w * (h - 1));
            }
        }
    }
}

/// The half transparent black around the thumbnail.
pub open spec fn background_color() -> Seq<u8> {
    seq![0x00u8, 0x00u8, 0x00u8, 0x80u8]
}

/// The light gray of the frame around the thumbnail.
pub open spec fn frame_color() -> Seq<u8> {
    seq![0x80u8, 0x80u8, 0x80u8, 0xffu8]
}

/// The width of the frame around the thumbnail.
pub const FRAME: u32 = 2;

/// Where a frame begins that is drawn around something at `offset`.
pub open spec fn frame_start(offset: int) -> int {
    if offset >= FRAME {
        offset - FRAME
    } else {
        0
    }
}

/// Where a thumbnail lies on a surface, and how large both are.
pub struct Placement {
    pub thumb_w: int,
    pub thumb_h: int,
    pub offset_x: int,
    pub offset_y: int,
    pub surface_w: int,
    pub surface_h: int,
}

impl Placement {
    /// Whether a position on the surface is on the thumbnail.
    pub open spec fn in_thumb(self, x: int, y: int) -> bool {
        &&& self.offset_x <= x < self.offset_x + self.thumb_w
        &&& self.offset_y <= y < self.offset_y + self.thumb_h
    }

    /// Whether a position on the surface is on the thumbnail or on its frame. The frame is
    /// not moved, only cut off, by the right and the lower edge of the surface; at the left
    /// and the upper edge it is moved inwards.
    pub open spec fn in_frame(self, x: int, y: int) -> bool {
        let (left, top) = (frame_start(self.offset_x), frame_start(self.offset_y));
        &&& left <= x < left + self.thumb_w + 2 * FRAME
        &&& top <= y < top + self.thumb_h + 2 * FRAME
    }

    /// Whether the pixels of a thumbnail hold a row and all those above it.
    pub open spec fn has_row(self, thumb: Seq<u8>, row: int) -> bool {
        (row + 1) * self.thumb_w * 4 <= thumb.len()
    }

    /// One byte of the surface.
    pub open spec fn byte(self, thumb: Seq<u8>, x: int, y: int, c: int) -> u8 {
        if self.in_thumb(x, y) {
            let (column, row) = (x - self.offset_x, y - self.offset_y);
            if self.has_row(thumb, row) {
                thumb[(row * self.thumb_w + column) * 4 + c]
            } else {
                background_color()[c]
            }
        } else if self.in_frame(x, y) {
            frame_color()[c]
        } else {
            background_color()[c]
        }
    }

    /// The surface: the thumbnail, a frame around it, and the background elsewhere.
    pub open spec fn composed(self, thumb: Seq<u8>) -> Seq<u8> {
        Seq::new(
            (self.surface_w * self.surface_h * 4) as nat,
            |i: int|
                self.byte(thumb, i / 4 % self.surface_w, i / 4 / self.surface_w, i % 4),
        )
    }

    /// Whether all that is computed on the way is a `u32`, and the thumbnail does not start
    /// beyond the right edge of the surface where a row of it is to be drawn.
    pub open spec fn fits(self, thumb_len: nat) -> bool {
        let (left, top) = (frame_start(self.offset_x), frame_start(self.offset_y));
        let drawn = self.thumb_h > 0 && self.offset_y < self.surface_h;
        &&& self.surface_w * self.surface_h * 4 <= u32::MAX
        &&& self.thumb_w + 2 * FRAME <= u32::MAX
        &&& top + self.thumb_h + 2 * FRAME <= u32::MAX
        &&& top < self.surface_h ==> left + self.thumb_w + 2 * FRAME <= u32::MAX
        &&& drawn ==> self.thumb_w * 4 <= u32::MAX
        &&& forall|row: int|
            0 <= row < self.thumb_h && self.offset_y + row < self.surface_h
                && #[trigger] (row * self.thumb_w) * 4 <= thumb_len ==> row * self.thumb_w * 4
                <= u32::MAX && row * self.thumb_w * 4 + self.thumb_w * 4 <= usize::MAX
        &&& drawn && self.thumb_w * 4 <= thumb_len ==> self.offset_x <= self.surface_w
    }
}

/// Compose a fullscreen overlay buffer: semi-transparent dark background with the
/// thumbnail drawn at the specified offset. Returns BGRA pixel data for the full surface.
pub fn compose_overlay(
    thumb_pixels: &[u8],
    thumb_w: u32,
    thumb_h: u32,
    offset_x: u32,
    offset_y: u32,
    surface_w: u32,
    surface_h: u32,
) -> (r: Vec<u8>)
    requires
        (Placement {
            thumb_w: thumb_w as int,
            thumb_h: thumb_h as int,
            offset_x: offset_x as int,
            offset_y: offset_y as int,
            surface_w: surface_w as int,
            surface_h: surface_h as int,
        }).fits(thumb_pixels@.len()),
    ensures
        r@ == (Placement {
            thumb_w: thumb_w as int,
            thumb_h: thumb_h as int,
            offset_x: offset_x as int,
            offset_y: offset_y as int,
            surface_w: surface_w as int,
            surface_h: surface_h as int,
        }).composed(thumb_pixels@),
{
    let ghost place = Placement {
        thumb_w: thumb_w as int,
        thumb_h: thumb_h as int,
        offset_x: offset_x as int,
        offset_y: offset_y as int,
        surface_w: surface_w as int,
        surface_h: surface_h as int,
    };
    let ghost (w, h) = (surface_w as int, surface_h as int);
    let ghost all = place.composed(thumb_pixels@);
    let mut buffer: Vec<u8> = Vec::new();
    let mut y: u32 = 0;
    assert(0 * w == 0) by (nonlinear_arith);
    while y < surface_h
        invariant
            w == surface_w,
            h == surface_h,
            0 <= y <= h,
            w * h * 4 <= u32::MAX,
            place == (Placement {
                thumb_w: thumb_w as int,
                thumb_h: thumb_h as int,
                offset_x: offset_x as int,
                offset_y: offset_y as int,
                surface_w: w,
                surface_h: h,
            }),
            all == place.composed(thumb_pixels@),
            buffer@.len() == y * w * 4,
            forall|i: int| 0 <= i < buffer@.len() ==> buffer@[i] == all[i],
        decreases h - y,
    {
        let mut x: u32 = 0;
        let ghost row = y * w;
        assert((y + 1) * w == row + w && (y + 1) * w <= w * h) by (nonlinear_arith)
            requires
                row == y * w,
                y + 1 <= h,
                w >= 0,
        ;
        while x < surface_w
            invariant
                w == surface_w,
                h == surface_h,
                0 <= y < h,
                0 <= x <= w,
                row == y * w,
                0 <= row,
                row + w <= w * h,
                w * h * 4 <= u32::MAX,
                place == (Placement {
                    thumb_w: thumb_w as int,
                    thumb_h: thumb_h as int,
                    offset_x: offset_x as int,
                    offset_y: offset_y as int,
                    surface_w: w,
                    surface_h: h,
                }),
                all == place.composed(thumb_pixels@),
                buffer@.len() == (row + x) * 4,
                forall|i: int| 0 <= i < buffer@.len() ==> buffer@[i] == all[i],
            decreases w - x,
        {
            let ghost p = row + x;
            let color: [u8; 4] = surface_pixel(
                thumb_pixels,
                thumb_w,
                thumb_h,
                offset_x,
                offset_y,
                x,
                y,
                Ghost(place),
            );
            proof {
                lemma_fundamental_div_mod_converse(p, w, y as int, x as int);
                assert forall|c: int| 0 <= c < 4 implies all[p * 4 + c] == #[trigger] color@[c] by {
                    assert((p * 4 + c) / 4 == p && (p * 4 + c) % 4 == c);
                }
            }
            let ghost before = buffer@;
            buffer.push(color[0]);
            buffer.push(color[1]);
            buffer.push(color[2]);
            buffer.push(color[3]);
            assert forall|i: int| 0 <= i < buffer@.len() implies buffer@[i] == all[i] by {
                if i >= before.len() {
                    assert(buffer@[i] == color@[i - p * 4]);
                } else {
                    assert(buffer@[i] == before[i]);
                }
            }
            x = x + 1;
        }
        y = y + 1;
    }
    assert(h * w * 4 == w * h * 4) by (nonlinear_arith);
    assert(buffer@ =~= all);
    buffer
}

fn surface_pixel(
    thumb_pixels: &[u8],
    thumb_w: u32,
    thumb_h: u32,
    offset_x: u32,
    offset_y: u32,
    x: u32,
    y: u32,
    Ghost(place): Ghost<Placement>,
) -> (color: [u8; 4])
    requires
        place.thumb_w == thumb_w,
        place.thumb_h == thumb_h,
        place.offset_x == offset_x,
        place.offset_y == offset_y,
    ensures
        forall|c: int|
            0 <= c < 4 ==> #[trigger] color@[c] == place.byte(thumb_pixels@, x as int, y as int, c),
{
    let (tx, ty, tw, th): (u64, u64, u64, u64) = (
        x as u64,
        y as u64,
        thumb_w as u64,
        thumb_h as u64,
    );
    let (ox, oy): (u64, u64) = (offset_x as u64, offset_y as u64);
    if tx >= ox && tx < ox + tw && ty >= oy && ty < oy + th {
        let column: u64 = tx - ox;
        let row: u64 = ty - oy;
        assert(0 <= (row + 1) * tw <= 0x1_0000_0000 * 0x1_0000_0000) by (nonlinear_arith)
            requires
                0 <= row < 0xffff_ffff,
                0 <= tw <= 0xffff_ffff,
        ;
        let needed: u128 = ((row as u128 + 1) * (tw as u128)) * 4;
        if needed <= thumb_pixels.len() as u128 {
            assert((row + 1) * tw == row * tw + tw && 0 <= row * tw) by (nonlinear_arith)
                requires
                    row >= 0,
                    tw >= 0,
            ;
            let at: u128 = ((row as u128) * (tw as u128) + column as u128) * 4;
            let i: usize = at as usize;
            [thumb_pixels[i], thumb_pixels[i + 1], thumb_pixels[i + 2], thumb_pixels[i + 3]]
        } else {
            [0x00, 0x00, 0x00, 0x80]
        }
    } else {
        let left: u64 = if ox >= 2 {
            ox - 2
        } else {
            0
        };
        let top: u64 = if oy >= 2 {
            oy - 2
        } else {
            0
        };
        if tx >= left && tx < left + tw + 4 && ty >= top && ty < top + th + 4 {
            [0x80, 0x80, 0x80, 0xff]
        } else {
            [0x00, 0x00, 0x00, 0x80]
        }
    }
}

/// The picture with the first and the third byte of each pixel exchanged: red, green, blue
/// becomes blue, green, red, and the other way round.
pub open spec fn exchanged(s: Seq<u8>) -> Seq<u8> {
    Seq::new(
        s.len(),
        |i: int|
            if i % 4 == 0 {
                s[i + 2]
            } else if i % 4 == 2 {
                s[i - 2]
            } else {
                s[i]
            },
    )
}

/// Converts red, green, blue, alpha to blue, green, red, alpha, which is what a little
/// endian machine holds for ARGB8888.
pub fn rgba_to_bgra(rgba: &[u8]) -> (r: Vec<u8>)
    requires
        rgba@.len() % 4 == 0,
    ensures
        r@ == exchanged(rgba@),
{
    let mut r: Vec<u8> = Vec::new();
    let mut i: usize = 0;
    while i < rgba.len()
        invariant
            rgba@.len() % 4 == 0,
            i % 4 == 0,
            i <= rgba@.len(),
            r@ == exchanged(rgba@).take(i as int),
        decreases rgba@.len() - i,
    {
        r.push(rgba[i + 2]);
        r.push(rgba[i + 1]);
        r.push(rgba[i]);
        r.push(rgba[i + 3]);
        assert(r@ =~= exchanged(rgba@).take(i + 4));
        i = i + 4;
    }
    assert(exchanged(rgba@).take(i as int) =~= exchanged(rgba@));
    r
}

/// Makes the picture of the overlay window from a thumbnail: its bytes in the order that the
/// window has, and a border around it.
pub fn finish_thumbnail(rgba: &[u8], width: u32, height: u32, border_width: u32) -> (r: Vec<u8>)
    requires
        rgba@.len() % 4 == 0,
        border_width > 0 && width > 0 && height > 0 ==> (width * height - 1) * 4 <= u32::MAX,
    ensures
        r@ == painted(
            exchanged(rgba@),
            |p: int| in_border(p, width as int, height as int, border_width as int),
            border_color(),
        ),
{
    let mut r = rgba_to_bgra(rgba);
    add_border(r.as_mut_slice(), width, height, border_width);
    r
}

/// Exchanging the bytes twice gives the picture back.
pub proof fn law_exchanged_twice(s: Seq<u8>)
    requires
        s.len() % 4 == 0,
    ensures
        exchanged(exchanged(s)) == s,
{
    assert(exchanged(exchanged(s)) =~= s);
}

/// Painting gives the chosen pixels the color, and changes no other pixel, nor bytes that are
/// not a whole pixel; painting twice is painting once.
pub proof fn law_painted(s: Seq<u8>, touched: spec_fn(int) -> bool, color: Seq<u8>)
    ensures
        painted(s, touched, color).len() == s.len(),
        forall|i: int|
            0 <= i < s.len() && !touched(i / 4) ==> #[trigger] painted(s, touched, color)[i] == s[i],
        forall|i: int|
            0 <= i < s.len() && touched(i / 4) && i - i % 4 + 4 <= s.len() ==> #[trigger] painted(
                s,
                touched,
                color,
            )[i] == color[i % 4],
        forall|i: int|
            0 <= i < s.len() && i - i % 4 + 4 > s.len() ==> #[trigger] painted(s, touched, color)[i]
                == s[i],
        painted(painted(s, touched, color), touched, color) == painted(s, touched, color),
{
    assert(painted(painted(s, touched, color), touched, color) =~= painted(s, touched, color));
}

/// Drawn wholly on the surface, the thumbnail is there pixel by pixel.
pub proof fn law_thumb_is_shown(
    place: Placement,
    thumb: Seq<u8>,
    column: int,
    row: int,
    c: int,
)
    requires
        0 <= column < place.thumb_w,
        0 <= row < place.thumb_h,
        0 <= c < 4,
        0 <= place.offset_x,
        0 <= place.offset_y,
        place.offset_x + place.thumb_w <= place.surface_w,
        place.offset_y + place.thumb_h <= place.surface_h,
        place.thumb_w * place.thumb_h * 4 <= thumb.len(),
    ensures
        ({
            let p = (place.offset_y + row) * place.surface_w + place.offset_x + column;
            &&& 0 <= p * 4 + c < place.composed(thumb).len()
            &&& place.composed(thumb)[p * 4 + c] == thumb[(row * place.thumb_w + column) * 4 + c]
        }),
{
    let (x, y) = (place.offset_x + column, place.offset_y + row);
    let (w, h) = (place.surface_w, place.surface_h);
    let p = y * w + x;
    lemma_fundamental_div_mod_converse(p, w, y, x);
    assert(0 <= p < w * h) by (nonlinear_arith)
        requires
            p == y * w + x,
            0 <= x < w,
            0 <= y < h,
    {
        assert(y * w <= (h - 1) * w);
    }
    assert((p * 4 + c) / 4 == p && (p * 4 + c) % 4 == c);
    assert((row + 1) * place.thumb_w <= place.thumb_w * place.thumb_h) by (nonlinear_arith)
        requires
            row + 1 <= place.thumb_h,
            place.thumb_w > 0,
    ;
}

/// A byte of the pixel at column `x` of row `y`.
pub open spec fn index_of(width: int, x: int, y: int, c: int) -> int {
    (y * width + x) * 4 + c
}

/// The column and the row of a byte, and that it is where they say.
pub proof fn lemma_index(width: int, height: int, x: int, y: int, c: int)
    requires
        0 <= x < width,
        0 <= y < height,
        0 <= c < 4,
    ensures
        index_of(width, x, y, c) / 4 == y * width + x,
        index_of(width, x, y, c) % 4 == c,
        (y * width + x) % width == x,
        (y * width + x) / width == y,
        0 <= y * width + x < width * height,
        0 <= index_of(width, x, y, c) < width * height * 4,
{
    let p = y * width + x;
    lemma_fundamental_div_mod_converse(p, width, y, x);
    assert(0 <= p < width * height) by (nonlinear_arith)
        requires
            p == y * width + x,
            0 <= x < width,
            0 <= y < height,
    {
        assert(y * width <= (height - 1) * width);
        assert(y * width >= 0);
    }
}

/// Adding a border of a width leaves every pixel as it is that is so many columns and rows
/// away from the edges of the picture; every other pixel of the picture becomes dark gray, and
/// what comes after the picture stays.
pub proof fn law_border(
    s: Seq<u8>,
    width: u32,
    height: u32,
    border: u32,
    x: int,
    y: int,
    c: int,
)
    requires
        0 <= x < width,
        0 <= y < height,
        0 <= c < 4,
        s.len() >= width * height * 4,
    ensures
        ({
            let t = painted(
                s,
                |p: int| in_border(p, width as int, height as int, border as int),
                border_color(),
            );
            let i = (y * width + x) * 4 + c;
            let inside = border <= x < width - border && border <= y < height - border;
            &&& t.len() == s.len()
            &&& 0 <= i < s.len()
            &&& inside ==> t[i] == s[i]
            &&& !inside ==> t[i] == if c == 3 {
                0xffu8
            } else {
                0x40u8
            }
            &&& forall|k: int| width * height * 4 <= k < s.len() ==> #[trigger] t[k] == s[k]
        }),
{
    let (w, h, b) = (width as int, height as int, border as int);
    lemma_index(w, h, x, y, c);
    let touched = |p: int| in_border(p, w, h, b);
    let t = painted(s, touched, border_color());
    let i = index_of(w, x, y, c);
    assert(i / 4 * 4 + 3 < w * h * 4) by {
        assert(i / 4 < w * h);
    }
    assert(touched(i / 4) == !(b <= x < w - b && b <= y < h - b));
    assert forall|k: int| w * h * 4 <= k < s.len() implies #[trigger] t[k] == s[k] by {
        assert(k / 4 >= w * h);
        assert(!touched(k / 4));
    }
}

/// A crosshair colors the pixels that are at most ten columns away in its row, and those that
/// are at most ten rows away in its column, red and slightly transparent; every other pixel of
/// the picture, and what comes after the picture, stays.
pub proof fn law_crosshair(
    s: Seq<u8>,
    width: u32,
    height: u32,
    cx: u32,
    cy: u32,
    x: int,
    y: int,
    c: int,
)
    requires
        0 <= x < width,
        0 <= y < height,
        0 <= c < 4,
        s.len() >= width * height * 4,
    ensures
        ({
            let t = with_crosshair(s, width, height, cx, cy);
            let i = (y * width + x) * 4 + c;
            let hit = y == cy && -10 <= x - cx <= 10 || x == cx && -10 <= y - cy <= 10;
            &&& t.len() == s.len()
            &&& 0 <= i < s.len()
            &&& !hit ==> t[i] == s[i]
            &&& hit ==> t[i] == seq![0x00u8, 0x00u8, 0xffu8, 0xccu8][c]
            &&& forall|k: int| width * height * 4 <= k < s.len() ==> #[trigger] t[k] == s[k]
        }),
{
    let (w, h) = (width as int, height as int);
    lemma_index(w, h, x, y, c);
    let t = with_crosshair(s, width, height, cx, cy);
    let i = index_of(w, x, y, c);
    assert(i / 4 < w * h);
    assert forall|k: int| w * h * 4 <= k < s.len() implies #[trigger] t[k] == s[k] by {
        let q = k / 4;
        lemma_fundamental_div_mod(q, w);
        lemma_mod_bound(q, w);
        assert(q / w >= h) by (nonlinear_arith)
            requires
                q >= w * h,
                q == w * (q / w) + q % w,
                q % w < w,
                w > 0,
        {
            if q / w < h {
                assert(w * (q / w) <= w * (h - 1));
            }
        }
    }
}

/// Whether a crosshair can be drawn is a matter of 32-bit arithmetic alone: it can on a picture
/// that is not too large, with the pointer not too far away.
pub proof fn law_crosshair_can_be_drawn(width: u32, height: u32, cx: u32, cy: u32)
    requires
        width > 0,
        height > 0,
        width * height * 4 <= u32::MAX,
        cx <= u32::MAX - 10,
        cy <= u32::MAX - 10,
    ensures
        crosshair_fits(width, height, cx, cy),
{
    let (w, h) = (width as int, height as int);
    if cy < height {
        let end = lesser(cx + ARM, w - 1);
        if 0 <= end {
            lemma_index(w, h, end, cy as int, 0);
        }
    }
    if cx < width {
        let end = lesser(cy + ARM, h - 1);
        if 0 <= end {
            lemma_index(w, h, cx as int, end, 0);
        }
    }
}

/// On the surface the thumbnail is where it was put, row by row as far as there are rows; a
/// light gray frame, two pixels wide, is around it; elsewhere, and where rows are missing, it
/// is half transparent black. Where the thumbnail is less than two pixels from the left or the
/// upper edge, the frame begins at the edge.
pub proof fn law_surface(place: Placement, thumb: Seq<u8>, x: int, y: int, c: int)
    requires
        0 <= x < place.surface_w,
        0 <= y < place.surface_h,
        0 <= c < 4,
        0 <= place.offset_x,
        0 <= place.offset_y,
        0 <= place.thumb_w,
        0 <= place.thumb_h,
    ensures
        ({
            let i = (y * place.surface_w + x) * 4 + c;
            let byte = place.composed(thumb)[i];
            let (column, row) = (x - place.offset_x, y - place.offset_y);
            let inside = 0 <= column < place.thumb_w && 0 <= row < place.thumb_h;
            let (left, top) = (
                if place.offset_x < 2 {
                    place.offset_x
                } else {
                    2
                },
                if place.offset_y < 2 {
                    place.offset_y
                } else {
                    2
                },
            );
            let framed = -left <= column < place.thumb_w + 4 - left && -top <= row < place.thumb_h
                + 4 - top;
            &&& place.composed(thumb).len() == place.surface_w * place.surface_h * 4
            &&& 0 <= i < place.composed(thumb).len()
            &&& inside && (row + 1) * place.thumb_w * 4 <= thumb.len() ==> byte == thumb[(row
                * place.thumb_w + column) * 4 + c]
            &&& inside && (row + 1) * place.thumb_w * 4 > thumb.len() || !inside && !framed
                ==> byte == seq![0u8, 0u8, 0u8, 0x80u8][c]
            &&& !inside && framed ==> byte == seq![0x80u8, 0x80u8, 0x80u8, 0xffu8][c]
        }),
{
    lemma_index(place.surface_w, place.surface_h, x, y, c);
}

/// What a surface can be composed of is a matter of 32-bit arithmetic alone: a thumbnail can be
/// put on a surface, also where the right or the lower edge cuts it off, as long as it does not
/// begin beyond the right edge, and all offsets and sizes, in bytes, are 32-bit numbers.
pub proof fn law_surface_can_be_composed(place: Placement, thumb_len: nat)
    requires
        0 <= place.thumb_w,
        0 <= place.thumb_h,
        0 <= place.offset_x <= place.surface_w,
        0 <= place.offset_y,
        0 <= place.surface_h,
        place.surface_w * place.surface_h * 4 <= u32::MAX,
        place.thumb_w * place.thumb_h * 4 <= u32::MAX,
        place.thumb_w * 4 <= u32::MAX,
        place.offset_x + place.thumb_w + 4 <= u32::MAX,
        place.offset_y + place.thumb_h + 4 <= u32::MAX,
    ensures
        place.fits(thumb_len),
{
    let (tw, th) = (place.thumb_w, place.thumb_h);
    assert forall|row: int|
        0 <= row < th && place.offset_y + row < place.surface_h && #[trigger] (row * tw) * 4
            <= thumb_len implies row * tw * 4 <= u32::MAX && row * tw * 4 + tw * 4 <= usize::MAX by {
        assert(0 <= row * tw && row * tw + tw <= tw * th) by (nonlinear_arith)
            requires
                0 <= row < th,
                0 <= tw,
        {
            assert((row + 1) * tw <= th * tw);
        }
    }
}

/// Exchanging bytes turns red, green, blue, alpha into blue, green, red, alpha, pixel by pixel.
pub proof fn law_exchanged(s: Seq<u8>, p: int)
    requires
        0 <= p,
        p * 4 + 4 <= s.len(),
    ensures
        exchanged(s).len() == s.len(),
        exchanged(s)[p * 4] == s[p * 4 + 2],
        exchanged(s)[p * 4 + 1] == s[p * 4 + 1],
        exchanged(s)[p * 4 + 2] == s[p * 4],
        exchanged(s)[p * 4 + 3] == s[p * 4 + 3],
{
}

} // verus!
