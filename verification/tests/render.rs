use mouse_jump::render::{
    add_border, can_draw_crosshair, compose_overlay, draw_crosshair, finish_thumbnail, rgba_to_bgra,
};
use mouse_jump::screenshot::{decode_and_scale, try_decode_and_scale, Picture, RenderError};

const BORDER: [u8; 4] = [0x40, 0x40, 0x40, 0xff];
const CROSS: [u8; 4] = [0x00, 0x00, 0xff, 0xcc];
const BACKGROUND: [u8; 4] = [0x00, 0x00, 0x00, 0x80];
const FRAME: [u8; 4] = [0x80, 0x80, 0x80, 0xff];

fn numbered(len: usize) -> Vec<u8> {
    (0..len).map(|i| (i % 251) as u8).collect()
}

fn at(pixels: &[u8], width: usize, x: usize, y: usize) -> &[u8] {
    &pixels[(y * width + x) * 4..(y * width + x) * 4 + 4]
}

#[test]
fn border_around_a_picture() {
    let before = numbered(7 * 6 * 4);
    let mut pixels = before.clone();
    add_border(&mut pixels, 7, 6, 2);
    for y in 0..6 {
        for x in 0..7 {
            let inside = (2..5).contains(&x) && (2..4).contains(&y);
            let wanted: &[u8] = if inside { at(&before, 7, x, y) } else { &BORDER };
            assert_eq!(at(&pixels, 7, x, y), wanted, "{x},{y}");
        }
    }
    // Drawing it again changes nothing.
    let once = pixels.clone();
    add_border(&mut pixels, 7, 6, 2);
    assert_eq!(pixels, once);
}

#[test]
fn border_of_no_width_and_of_more_than_there_is() {
    let before = numbered(3 * 3 * 4);
    let mut pixels = before.clone();
    add_border(&mut pixels, 3, 3, 0);
    assert_eq!(pixels, before);
    add_border(&mut pixels, 0, 3, 2);
    assert_eq!(pixels, before);
    add_border(&mut pixels, 3, 3, 2);
    assert_eq!(pixels, BORDER.repeat(9));
}

#[test]
fn border_on_a_buffer_that_ends_early() {
    let before = numbered(3 * 3 * 4 - 2);
    let mut pixels = before.clone();
    add_border(&mut pixels, 3, 3, 1);
    assert_eq!(at(&pixels, 3, 1, 2), &BORDER);
    assert_eq!(pixels[32..], before[32..]);
}

#[test]
fn crosshair_in_the_middle() {
    let before = numbered(40 * 30 * 4);
    let mut pixels = before.clone();
    draw_crosshair(&mut pixels, 40, 30, 15, 12);
    for y in 0..30 {
        for x in 0..40 {
            let hit = y == 12 && (5..=25).contains(&x) || x == 15 && (2..=22).contains(&y);
            let wanted: &[u8] = if hit { &CROSS } else { at(&before, 40, x, y) };
            assert_eq!(at(&pixels, 40, x, y), wanted, "{x},{y}");
        }
    }
}

#[test]
fn crosshair_at_the_corner_and_outside() {
    let before = numbered(5 * 5 * 4);
    let mut pixels = before.clone();
    draw_crosshair(&mut pixels, 5, 5, 4, 4);
    for y in 0..5 {
        for x in 0..5 {
            let wanted: &[u8] = if x == 4 || y == 4 { &CROSS } else { at(&before, 5, x, y) };
            assert_eq!(at(&pixels, 5, x, y), wanted, "{x},{y}");
        }
    }
    // To the right of the picture: what reaches into it is drawn.
    let mut pixels = before.clone();
    draw_crosshair(&mut pixels, 5, 5, 12, 1);
    assert_eq!(at(&pixels, 5, 2, 1), &CROSS);
    assert_eq!(at(&pixels, 5, 1, 1), at(&before, 5, 1, 1));
    // Too far away.
    let mut pixels = before.clone();
    draw_crosshair(&mut pixels, 5, 5, 30, 30);
    assert_eq!(pixels, before);
}

#[test]
fn crosshairs_that_cannot_be_drawn() {
    assert!(can_draw_crosshair(5, 5, 4, 4));
    assert!(can_draw_crosshair(5, 5, 4294967295, 4294967295));
    assert!(!can_draw_crosshair(5, 5, 4294967290, 4));
    assert!(!can_draw_crosshair(5, 5, 4, 4294967290));
    assert!(!can_draw_crosshair(0, 5, 0, 0));
    assert!(!can_draw_crosshair(100000, 100000, 5, 99999));
}

#[test]
fn overlay_with_a_frame() {
    let thumb = numbered(3 * 2 * 4);
    let surface = compose_overlay(&thumb, 3, 2, 4, 3, 10, 9);
    assert_eq!(surface.len(), 10 * 9 * 4);
    for y in 0..9 {
        for x in 0..10 {
            let wanted: &[u8] = if (4..7).contains(&x) && (3..5).contains(&y) {
                at(&thumb, 3, x - 4, y - 3)
            } else if (2..9).contains(&x) && (1..7).contains(&y) {
                &FRAME
            } else {
                &BACKGROUND
            };
            assert_eq!(at(&surface, 10, x, y), wanted, "{x},{y}");
        }
    }
}

#[test]
fn overlay_that_is_cut_off() {
    let thumb = numbered(3 * 2 * 4);
    let surface = compose_overlay(&thumb, 3, 2, 2, 1, 4, 2);
    assert_eq!(at(&surface, 4, 2, 1), at(&thumb, 3, 0, 0));
    assert_eq!(at(&surface, 4, 3, 1), at(&thumb, 3, 1, 0));
    assert_eq!(at(&surface, 4, 0, 0), &FRAME);
    // Rows that are not there show the background.
    let surface = compose_overlay(&thumb[..13], 3, 2, 0, 0, 8, 8);
    assert_eq!(at(&surface, 8, 2, 0), at(&thumb, 3, 2, 0));
    assert_eq!(at(&surface, 8, 0, 1), &BACKGROUND);
    // At the left edge the frame is moved inwards.
    assert_eq!(at(&surface, 8, 6, 0), &FRAME);
    assert_eq!(at(&surface, 8, 7, 0), &BACKGROUND);
}

#[test]
fn bytes_exchanged() {
    assert_eq!(rgba_to_bgra(&[1, 2, 3, 4, 5, 6, 7, 8]), vec![3, 2, 1, 4, 7, 6, 5, 8]);
    assert_eq!(rgba_to_bgra(&rgba_to_bgra(&[1, 2, 3, 4])), vec![1, 2, 3, 4]);
    assert!(rgba_to_bgra(&[]).is_empty());
}

fn png(width: u32, height: u32, rgba: Vec<u8>) -> Vec<u8> {
    let img = image::RgbaImage::from_raw(width, height, rgba).unwrap();
    let mut file = std::io::Cursor::new(Vec::new());
    img.write_to(&mut file, image::ImageFormat::Png).unwrap();
    file.into_inner()
}

#[test]
fn screenshot_of_the_same_size() {
    let rgba = numbered(4 * 3 * 4);
    let file = png(4, 3, rgba.clone());
    let (pixels, w, h) = decode_and_scale(&file, 4, 3).unwrap();
    assert_eq!((w, h), (4, 3));
    assert_eq!(pixels, rgba);
    let one = png(1, 1, vec![10, 20, 30, 255]);
    assert_eq!(decode_and_scale(&one, 1, 1).unwrap(), (vec![10, 20, 30, 255], 1, 1));
}

#[test]
fn thumbnail_is_finished() {
    let rgba = numbered(6 * 5 * 4);
    let shown = finish_thumbnail(&rgba, 6, 5, 2);
    let bgra = rgba_to_bgra(&rgba);
    assert_eq!(shown.len(), rgba.len());
    for y in 0..5 {
        for x in 0..6 {
            let inside = (2..4).contains(&x) && y == 2;
            let wanted: &[u8] = if inside { at(&bgra, 6, x, y) } else { &BORDER };
            assert_eq!(at(&shown, 6, x, y), wanted, "{x},{y}");
        }
    }
    assert_eq!(finish_thumbnail(&[10, 20, 30, 255], 1, 1, 0), vec![30, 20, 10, 255]);
}

#[test]
fn screenshot_scaled_down() {
    // Four quarters in four colors; every pixel of the thumbnail is a pixel of it.
    let (red, green, blue, gray) =
        ([255u8, 0, 0, 255], [0u8, 255, 0, 255], [0u8, 0, 255, 255], [9u8, 9, 9, 128]);
    let mut rgba = Vec::new();
    for y in 0..40 {
        for x in 0..80 {
            let color = match (x < 40, y < 20) {
                (true, true) => red,
                (false, true) => green,
                (true, false) => blue,
                (false, false) => gray,
            };
            rgba.extend_from_slice(&color);
        }
    }
    let file = png(80, 40, rgba);
    let (pixels, w, h) = decode_and_scale(&file, 8, 100).unwrap();
    assert_eq!((w, h), (8, 4));
    assert_eq!(pixels.len(), 8 * 4 * 4);
    for y in 0..4 {
        for x in 0..8 {
            let wanted = match (x < 4, y < 2) {
                (true, true) => [255u8, 0, 0, 255],
                (false, true) => [0, 255, 0, 255],
                (true, false) => [0, 0, 255, 255],
                (false, false) => [9, 9, 9, 128],
            };
            assert_eq!(at(&pixels, 8, x, y), &wanted, "{x},{y}");
        }
    }
    // Never smaller than one pixel, and the same through every door.
    assert_eq!(decode_and_scale(&file, 0, 0).unwrap().1, 1);
    let tried = try_decode_and_scale(&file, 8, 100).unwrap().unwrap();
    assert_eq!(tried, (pixels, w, h));
}

#[test]
fn thumbnail_is_in_proportion() {
    // Each pixel tells its column and its row.
    let (w, h) = (300u32, 170u32);
    let mut rgba = Vec::new();
    for y in 0..h {
        for x in 0..w {
            rgba.extend_from_slice(&[(x >> 8) as u8, x as u8, y as u8, 255]);
        }
    }
    let picture = Picture { width: w, height: h, rgba };
    for (max_w, max_h) in [(75, 43), (77, 1000), (1000, 31), (299, 169), (700, 700)] {
        let (pixels, tw, th) = picture.scale(max_w, max_h);
        for y in 0..th {
            for x in 0..tw {
                let p = at(&pixels, tw as usize, x as usize, y as usize);
                let column = f64::from(p[0]) * 256.0 + f64::from(p[1]);
                let row = f64::from(p[2]);
                let fx = (f64::from(x) + 0.5) * f64::from(w) / f64::from(tw);
                let fy = (f64::from(y) + 0.5) * f64::from(h) / f64::from(th);
                let slack = 1.0 / 64.0;
                assert!(column - slack <= fx && fx <= column + 1.0 + slack, "{x} of {tw}");
                assert!(row - slack <= fy && fy <= row + 1.0 + slack, "{y} of {th}");
                assert_eq!(p[3], 255);
            }
        }
    }
}

#[test]
fn screenshot_without_colors() {
    let img = image::GrayImage::from_raw(2, 1, vec![7, 200]).unwrap();
    let mut file = std::io::Cursor::new(Vec::new());
    img.write_to(&mut file, image::ImageFormat::Png).unwrap();
    let picture = Picture::decode(file.get_ref()).unwrap();
    assert_eq!((picture.width, picture.height), (2, 1));
    assert_eq!(picture.rgba, vec![7, 7, 7, 255, 200, 200, 200, 255]);
    assert!(picture.can_scale(4, 4));
    let (pixels, w, h) = picture.scale(4, 4);
    assert_eq!((w, h), (4, 2));
    assert_eq!(at(&pixels, 4, 0, 0), &[7, 7, 7, 255]);
    assert_eq!(at(&pixels, 4, 3, 1), &[200, 200, 200, 255]);
}

#[test]
fn screenshots_that_are_too_large_to_scale() {
    let picture = Picture { width: 4000000000, height: 4000000000, rgba: Vec::new() };
    assert!(!picture.can_scale(4000000000, 4000000000));
    assert!(!picture.can_scale(200000000, 200000000));
    assert!(picture.can_scale(100, 100));
}

#[test]
fn what_is_not_a_png_file() {
    for data in [&b""[..], &b"not a picture"[..], &[0x89, b'P', b'N', b'G'][..]] {
        let e = decode_and_scale(data, 10, 10).unwrap_err();
        assert!(matches!(e, RenderError::Decode(_)));
        assert_eq!(e.message(), "Failed to decode PNG screenshot");
        assert!(try_decode_and_scale(data, 10, 10).unwrap().is_err());
    }
}
