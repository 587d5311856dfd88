//! Screenshot decoding and scaling for the overlay thumbnail.
use crate::render;
use crate::scaling;
use vstd::prelude::*;

verus! {

/// The error that the `image` crate reports; nothing here looks inside.
#[verifier::external_type_specification]
#[verifier::external_body]
pub struct ExImageError(image::ImageError);

/// A decoded picture: four bytes for each pixel (red, green, blue, alpha), row by row.
#[derive(Debug)]
pub struct Picture {
    pub width: u32,
    pub height: u32,
    pub rgba: Vec<u8>,
}

impl Picture {
    /// Whether there are as many bytes as the size asks for.
    pub open spec fn wf(self) -> bool {
        self.rgba@.len() == 4 * (self.width * self.height)
    }
}

/// What a PNG file decodes to: a width, a height and the pixels as red, green, blue and
/// alpha bytes; `None` where the file cannot be decoded.
pub uninterp spec fn decoded_png(data: Seq<u8>) -> Option<(u32, u32, Seq<u8>)>;

/// Whether a file begins with the eight bytes that a PNG file begins with.
pub open spec fn has_png_signature(data: Seq<u8>) -> bool {
    data.len() >= 8 && data.take(8) == seq![137u8, 80u8, 78u8, 71u8, 13u8, 10u8, 26u8, 10u8]
}

/// Decodes a PNG file with `image::load_from_memory_with_format`, and takes the pixels as
/// `DynamicImage::to_rgba8` gives them, of whatever kind they are in the file.
///
/// Believed without proof: what comes out depends on the bytes of the file alone; a picture
/// that comes out is not empty, and has four bytes for each pixel; none comes out of a file
/// that does not begin as a PNG file does. What the pixels are is not said here.
#[verifier::external_body]
fn load_png(data: &[u8]) -> (r: Result<Picture, image::ImageError>)
    ensures
        match r {
            Ok(p) => {
                &&& p.wf() && p.width > 0 && p.height > 0
                &&& has_png_signature(data@)
                &&& decoded_png(data@) == Some((p.width, p.height, p.rgba@))
            },
            Err(_) => decoded_png(data@) is None,
        },
{
    match image::load_from_memory_with_format(data, image::ImageFormat::Png) {
        Ok(img) => {
            let rgba = img.to_rgba8();
            let (width, height) = rgba.dimensions();
            Ok(Picture { width, height, rgba: rgba.into_raw() })
        },
        Err(e) => Err(e),
    }
}

/// The four bytes of a pixel of a picture.
pub open spec fn pixel(s: Seq<u8>, width: int, x: int, y: int) -> Seq<u8> {
    s.subrange((y * width + x) * 4, (y * width + x) * 4 + 4)
}

/// Whether the middle of the `i`th of `to` equal parts of `from` columns is on column `c`,
/// give or take a 64th of a column.
pub open spec fn is_near(c: int, i: int, from: int, to: int) -> bool {
    let middle = (2 * i + 1) * from * 64;
    c * (2 * to) * 64 - 2 * to <= middle <= (c + 1) * (2 * to) * 64 + 2 * to
}

/// Whether columns (or rows) are taken in their order and, among as many as a screen has,
/// each from where it proportionally is.
pub open spec fn in_proportion(taken: Seq<int>, from: int, to: int) -> bool {
    &&& taken.len() == to
    &&& forall|i: int| 0 <= i < to ==> 0 <= #[trigger] taken[i] < from
    &&& forall|i: int, j: int| 0 <= i <= j < to ==> taken[i] <= taken[j]
    &&& from <= 0x1_0000 && to <= 0x1_0000 ==> forall|i: int|
        0 <= i < to ==> is_near(#[trigger] taken[i], i, from, to)
}

/// Whether one picture is drawn from the columns and rows of another: each of its columns
/// stands for one column there, each of its rows for one row, in proportion, and its pixels
/// are those where they cross.
pub open spec fn sampled(
    from: Seq<u8>,
    w: int,
    h: int,
    s: Seq<u8>,
    new_w: int,
    new_h: int,
) -> bool {
    exists|cols: Seq<int>, rows: Seq<int>| #[trigger]
        sampled_at(from, w, h, s, new_w, new_h, cols, rows)
}

/// The same, by the columns and rows that are taken.
pub open spec fn sampled_at(
    from: Seq<u8>,
    w: int,
    h: int,
    s: Seq<u8>,
    new_w: int,
    new_h: int,
    cols: Seq<int>,
    rows: Seq<int>,
) -> bool {
    &&& in_proportion(cols, w, new_w)
    &&& in_proportion(rows, h, new_h)
    &&& forall|x: int, y: int|
        0 <= x < new_w && 0 <= y < new_h ==> #[trigger] pixel(s, new_w, x, y) == pixel(
            from,
            w,
            cols[x],
            rows[y],
        )
}

/// What a picture of `w` by `h` becomes when it is resized to `new_w` by `new_h` by taking
/// the nearest pixel.
pub uninterp spec fn resized_nearest(
    rgba: Seq<u8>,
    w: u32,
    h: u32,
    new_w: u32,
    new_h: u32,
) -> Seq<u8>;

/// Resizes a picture with `image::imageops::resize` and the filter `Nearest`.
///
/// Believed without proof: what comes out depends on the arguments alone, has four bytes
/// for each pixel and, where there is anything to take pixels from, takes each pixel
/// unchanged from a column and a row of the picture. Those are the ones in which the middle
/// of the new pixel lies. As that is computed in single precision, it is said here only up
/// to a small part of a pixel, and only of pictures that are not so large that single
/// precision cannot tell their columns apart. The buffers that the call allocates, one of
/// sixteen bytes for each pixel of `w` by `new_h`, have to be of a size that a vector can
/// have.
#[verifier::external_body]
fn resize_nearest(rgba: &[u8], w: u32, h: u32, new_w: u32, new_h: u32) -> (r: Vec<u8>)
    requires
        rgba@.len() == 4 * (w * h),
        new_w > 0,
        new_h > 0,
        resize_fits(w as int, new_w as int, new_h as int),
    ensures
        r@ == resized_nearest(rgba@, w, h, new_w, new_h),
        r@.len() == 4 * (new_w * new_h),
        w > 0 && h > 0 ==> sampled(
            rgba@,
            w as int,
            h as int,
            r@,
            new_w as int,
            new_h as int,
        ),
{
    let source = image::ImageBuffer::<image::Rgba<u8>, &[u8]>::from_raw(w, h, rgba);
    image::imageops::resize(
        &source.expect("four bytes for each pixel"),
        new_w,
        new_h,
        image::imageops::FilterType::Nearest,
    ).into_raw()
}

/// Whether a vector can hold the buffers that resizing takes.
pub open spec fn resize_fits(w: int, new_w: int, new_h: int) -> bool {
    16 * (w * new_h) <= isize::MAX && 4 * (new_w * new_h) <= isize::MAX
}

/// Whether a picture can be scaled to fit a box.
pub open spec fn scalable(w: u32, h: u32, max_w: u32, max_h: u32) -> bool {
    let (new_w, new_h) = scaling::fitted(w, h, max_w, max_h);
    resize_fits(w as int, new_w, new_h)
}

/// Whether a size and pixels are those of the thumbnail of a picture: the picture scaled to
/// fit a box, every pixel of it taken from the picture, red, green, blue and alpha.
pub open spec fn is_thumbnail(
    picture: (u32, u32, Seq<u8>),
    max_w: u32,
    max_h: u32,
    t: (Vec<u8>, u32, u32),
) -> bool {
    let (w, h, rgba) = picture;
    &&& (t.1 as int, t.2 as int) == scaling::fitted(w, h, max_w, max_h)
    &&& t.0@ == resized_nearest(rgba, w, h, t.1, t.2)
    &&& t.0@.len() == 4 * (t.1 * t.2)
    &&& w > 0 && h > 0 ==> sampled(rgba, w as int, h as int, t.0@, t.1 as int, t.2 as int)
}

/// Why there is no thumbnail.
#[derive(Debug)]
pub enum RenderError {
    /// The screenshot is not a PNG file that can be decoded.
    Decode(image::ImageError),
}

impl RenderError {
    pub fn message(&self) -> (s: String)
        ensures
            s@ == "Failed to decode PNG screenshot"@,
    {
        "Failed to decode PNG screenshot".to_owned()
    }
}

impl Picture {
    /// Decodes a PNG file.
    pub fn decode(png_data: &[u8]) -> (r: Result<Picture, RenderError>)
        ensures
            match r {
                Ok(p) => {
                    &&& p.wf() && p.width > 0 && p.height > 0
                    &&& has_png_signature(png_data@)
                    &&& decoded_png(png_data@) == Some((p.width, p.height, p.rgba@))
                },
                Err(e) => decoded_png(png_data@) is None && e is Decode,
            },
    {
        match load_png(png_data) {
            Ok(p) => Ok(p),
            Err(e) => Err(RenderError::Decode(e)),
        }
    }

    /// Whether the picture can be scaled to fit a box.
    pub fn can_scale(&self, target_width: u32, target_height: u32) -> (b: bool)
        ensures
            b == scalable(self.width, self.height, target_width, target_height),
    {
        let (w, h) = scaling::fit_within(self.width, self.height, target_width, target_height);
        proof {
            let (a, c, d) = (self.width as int, w as int, h as int);
            assert(0 <= a * d <= 0xffff_ffff * 0xffff_ffff && 0 <= c * d <= 0xffff_ffff
                * 0xffff_ffff) by (nonlinear_arith)
                requires
                    0 <= a <= 0xffff_ffff,
                    0 <= c <= 0xffff_ffff,
                    0 <= d <= 0xffff_ffff,
            ;
        }
        16 * ((self.width as u128) * (h as u128)) <= isize::MAX as u128 && 4 * ((w as u128) * (
        h as u128)) <= isize::MAX as u128
    }

    /// Scales the picture to fit within the given dimensions.
    /// Returns RGBA pixel data and the actual (width, height) of the scaled picture.
    pub fn scale(&self, target_width: u32, target_height: u32) -> (r: (Vec<u8>, u32, u32))
        requires
            self.wf(),
            scalable(self.width, self.height, target_width, target_height),
        ensures
            is_thumbnail((self.width, self.height, self.rgba@), target_width, target_height, r),
    {
        let (w, h) = scaling::fit_within(self.width, self.height, target_width, target_height);
        let resized = resize_nearest(self.rgba.as_slice(), self.width, self.height, w, h);
        (resized, w, h)
    }
}

/// Exchanging bytes within pixels does not change where pixels come from: what is shown of a
/// thumbnail is in proportion, as the thumbnail is.
pub proof fn law_exchange_keeps_places(
    from: Seq<u8>,
    w: int,
    h: int,
    s: Seq<u8>,
    new_w: int,
    new_h: int,
)
    requires
        0 < w,
        0 < h,
        0 <= new_w,
        0 <= new_h,
        from.len() == 4 * (w * h),
        s.len() == 4 * (new_w * new_h),
        sampled(from, w, h, s, new_w, new_h),
    ensures
        sampled(render::exchanged(from), w, h, render::exchanged(s), new_w, new_h),
{
    let (cols, rows) = choose|cols: Seq<int>, rows: Seq<int>| #[trigger]
        sampled_at(from, w, h, s, new_w, new_h, cols, rows);
    let (f, g) = (render::exchanged(from), render::exchanged(s));
    assert forall|x: int, y: int| 0 <= x < new_w && 0 <= y < new_h implies #[trigger] pixel(
        g,
        new_w,
        x,
        y,
    ) == pixel(f, w, cols[x], rows[y]) by {
        assert(pixel(s, new_w, x, y) == pixel(from, w, cols[x], rows[y]));
        lemma_pixel_exchanged(s, new_w, new_h, x, y);
        lemma_pixel_exchanged(from, w, h, cols[x], rows[y]);
    }
    assert(sampled_at(f, w, h, g, new_w, new_h, cols, rows));
}

proof fn lemma_pixel_exchanged(s: Seq<u8>, w: int, h: int, x: int, y: int)
    requires
        0 <= x < w,
        0 <= y < h,
        s.len() == 4 * (w * h),
    ensures
        pixel(render::exchanged(s), w, x, y) == render::exchanged(pixel(s, w, x, y)),
        pixel(s, w, x, y).len() == 4,
{
    let p = y * w + x;
    assert(0 <= p < w * h) by (nonlinear_arith)
        requires
            p == y * w + x,
            0 <= x < w,
            0 <= y < h,
    {
        assert(y * w <= (h - 1) * w);
    }
    let (a, b) = (pixel(render::exchanged(s), w, x, y), render::exchanged(pixel(s, w, x, y)));
    assert forall|c: int| 0 <= c < 4 implies #[trigger] a[c] == b[c] by {
        assert((p * 4 + c) % 4 == c);
    }
    assert(a =~= b);
}

/// Decode a PNG screenshot and scale it to fit within the given dimensions.
/// Returns RGBA pixel data and the actual (width, height) of the scaled image.
pub fn decode_and_scale(png_data: &[u8], target_width: u32, target_height: u32) -> (r: Result<
    (Vec<u8>, u32, u32),
    RenderError,
>)
    requires
        decoded_png(png_data@) matches Some(p) ==> scalable(p.0, p.1, target_width, target_height),
    ensures
        match (r, decoded_png(png_data@)) {
            (Ok(t), Some(p)) => has_png_signature(png_data@) && p.0 > 0 && p.1 > 0
                && is_thumbnail(p, target_width, target_height, t),
            (Err(e), None) => e is Decode,
            _ => false,
        },
{
    match Picture::decode(png_data) {
        Ok(p) => Ok(p.scale(target_width, target_height)),
        Err(e) => Err(e),
    }
}

/// The same, but `None` where a picture was decoded that cannot be scaled to the given
/// dimensions.
pub fn try_decode_and_scale(png_data: &[u8], target_width: u32, target_height: u32) -> (r: Option<
    Result<(Vec<u8>, u32, u32), RenderError>,
>)
    ensures
        match (r, decoded_png(png_data@)) {
            (Some(Ok(t)), Some(p)) => has_png_signature(png_data@) && p.0 > 0 && p.1 > 0
                && scalable(p.0, p.1, target_width, target_height) && is_thumbnail(
                p,
                target_width,
                target_height,
                t,
            ),
            (Some(Err(e)), None) => e is Decode,
            (None, Some(p)) => has_png_signature(png_data@) && !scalable(
                p.0,
                p.1,
                target_width,
                target_height,
            ),
            _ => false,
        },
{
    match Picture::decode(png_data) {
        Ok(p) => if p.can_scale(target_width, target_height) {
            Some(decode_and_scale(png_data, target_width, target_height))
        } else {
            None
        },
        Err(e) => Some(Err(e)),
    }
}

/// A thumbnail shows the screenshot: it has the size that fits the box, and each of its pixels
/// has the four bytes of a pixel of the screenshot, from the place that is, in proportion, its
/// own. Of screenshots and boxes of up to 65536 pixels each way, the place is right to a 64th
/// of a pixel.
pub proof fn law_thumbnail_shows_screenshot(
    picture: (u32, u32, Seq<u8>),
    max_w: u32,
    max_h: u32,
    t: (Vec<u8>, u32, u32),
    x: int,
    y: int,
)
    requires
        is_thumbnail(picture, max_w, max_h, t),
        0 < picture.0 <= 65536,
        0 < picture.1 <= 65536,
        picture.2.len() == 4 * (picture.0 * picture.1),
        t.1 <= 65536,
        t.2 <= 65536,
        0 <= x < t.1,
        0 <= y < t.2,
    ensures
        (t.1 as int, t.2 as int) == scaling::fitted(picture.0, picture.1, max_w, max_h),
        t.0@.len() == t.1 * t.2 * 4,
        exists|column: int, row: int| #[trigger] shows(picture, t, x, y, column, row),
{
    let (w, h, rgba) = picture;
    let (cols, rows) = choose|cols: Seq<int>, rows: Seq<int>| #[trigger]
        sampled_at(rgba, w as int, h as int, t.0@, t.1 as int, t.2 as int, cols, rows);
    let (c, r) = (cols[x], rows[y]);
    assert(is_near(c, x, w as int, t.1 as int) && is_near(r, y, h as int, t.2 as int));
    let (p, q) = (pixel(t.0@, t.1 as int, x, y), pixel(rgba, w as int, c, r));
    assert(p == q);
    let (i, k) = ((y * t.1 + x) * 4, (r * w + c) * 4);
    render::lemma_index(t.1 as int, t.2 as int, x, y, 0);
    render::lemma_index(w as int, h as int, c, r, 0);
    assert(0 <= y * t.1 + x < t.1 * t.2 && 0 <= r * w + c < w * h);
    assert(p[0] == t.0@[i] && p[1] == t.0@[i + 1] && p[2] == t.0@[i + 2] && p[3] == t.0@[i + 3]);
    assert(q[0] == rgba[k] && q[1] == rgba[k + 1] && q[2] == rgba[k + 2] && q[3] == rgba[k + 3]);
    lemma_near(c, x, w as int, t.1 as int);
    lemma_near(r, y, h as int, t.2 as int);
    assert(shows(picture, t, x, y, c, r));
}

/// Whether a pixel of a thumbnail has the bytes of one of the screenshot, and its middle, as a
/// part of the whole, is in that pixel, give or take a 64th of it.
pub open spec fn shows(
    picture: (u32, u32, Seq<u8>),
    t: (Vec<u8>, u32, u32),
    x: int,
    y: int,
    column: int,
    row: int,
) -> bool {
    let (w, h, rgba) = picture;
    let (i, k) = ((y * t.1 + x) * 4, (row * w + column) * 4);
    &&& 0 <= column < w && 0 <= row < h
    &&& t.0@[i] == rgba[k] && t.0@[i + 1] == rgba[k + 1]
    &&& t.0@[i + 2] == rgba[k + 2] && t.0@[i + 3] == rgba[k + 3]
    &&& (64 * column - 1) * (2 * t.1) <= 64 * ((2 * x + 1) * w) <= (64 * column + 65) * (2 * t.1)
    &&& (64 * row - 1) * (2 * t.2) <= 64 * ((2 * y + 1) * h) <= (64 * row + 65) * (2 * t.2)
}

proof fn lemma_near(c: int, i: int, from: int, to: int)
    requires
        is_near(c, i, from, to),
    ensures
        (64 * c - 1) * (2 * to) <= 64 * ((2 * i + 1) * from) <= (64 * c + 65) * (2 * to),
{
    let (a, b) = (2 * to, (2 * i + 1) * from);
    assert((64 * c - 1) * a == c * a * 64 - a && (64 * c + 65) * a == (c + 1) * a * 64 + a)
        by (nonlinear_arith);
    assert((2 * i + 1) * from * 64 == 64 * b);
}

/// A picture can be scaled if the buffers for it, of sixteen bytes for each pixel of the old
/// width and the new height, and of four for each pixel of the new size, are not too large.
pub proof fn law_scalable(w: u32, h: u32, max_w: u32, max_h: u32)
    ensures
        ({
            let (nw, nh) = scaling::fitted(w, h, max_w, max_h);
            scalable(w, h, max_w, max_h) == (16 * (w * nh) <= isize::MAX && 4 * (nw * nh)
                <= isize::MAX)
        }),
{
}

/// A PNG file begins with a byte above 127, the letters PNG, a carriage return and a line feed,
/// the end-of-file character, and a line feed.
pub proof fn law_png_signature(data: Seq<u8>)
    ensures
        has_png_signature(data) <==> data.len() >= 8 && data[0] == 0x89 && data[1] == 0x50 && data[2]
            == 0x4e && data[3] == 0x47 && data[4] == 0x0d && data[5] == 0x0a && data[6] == 0x1a
            && data[7] == 0x0a,
{
    let s = seq![137u8, 80u8, 78u8, 71u8, 13u8, 10u8, 26u8, 10u8];
    if data.len() >= 8 {
        let t = data.take(8);
        if has_png_signature(data) {
            assert(t == s);
            assert(t[0] == data[0] && t[1] == data[1] && t[2] == data[2] && t[3] == data[3]);
            assert(t[4] == data[4] && t[5] == data[5] && t[6] == data[6] && t[7] == data[7]);
        } else if data[0] == 0x89 && data[1] == 0x50 && data[2] == 0x4e && data[3] == 0x47
            && data[4] == 0x0d && data[5] == 0x0a && data[6] == 0x1a && data[7] == 0x0a {
            assert(t =~= s);
        }
    }
}

/// A picture is well-formed if it has four bytes for each pixel.
pub proof fn law_picture_is_wf(p: Picture)
    ensures
        p.wf() == (p.rgba@.len() == p.width * p.height * 4),
{
}

/// A thumbnail has the size that fits the box and four bytes for each pixel, and its pixels are
/// what resizing the whole screenshot to that size gives, once and with nothing done to them.
pub proof fn law_thumbnail_is_resized_screenshot(
    picture: (u32, u32, Seq<u8>),
    max_w: u32,
    max_h: u32,
    t: (Vec<u8>, u32, u32),
)
    requires
        is_thumbnail(picture, max_w, max_h, t),
    ensures
        (t.1 as int, t.2 as int) == scaling::fitted(picture.0, picture.1, max_w, max_h),
        t.0@ == resized_nearest(picture.2, picture.0, picture.1, t.1, t.2),
        t.0@.len() == 4 * (t.1 * t.2),
{
}

} // verus!
