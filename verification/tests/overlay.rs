use mouse_jump::double::Double;
use mouse_jump::overlay::{
    can_show, paint_frame, Capability, Interaction, OverlayError, OverlayResult, PointerEvent,
    PointerEventKind, ESCAPE, LEFT_BUTTON,
};

fn d(v: f64) -> Double {
    Double::from_bits(v.to_bits())
}

fn event(x: f64, y: f64, kind: PointerEventKind) -> PointerEvent {
    PointerEvent { x: d(x), y: d(y), kind }
}

fn press(x: f64, y: f64, button: u32) -> PointerEvent {
    event(x, y, PointerEventKind::Press { button })
}

fn clicked(x: f64, y: f64) -> Option<OverlayResult> {
    Some(OverlayResult::Click { x: d(x), y: d(y) })
}

#[test]
fn nothing_has_happened_yet() {
    let s = Interaction::new();
    assert!(s.running && !s.configured && !s.needs_redraw);
    assert_eq!((s.pointer_x, s.pointer_y), (d(-1.0), d(-1.0)));
    assert_eq!(s.finish(), Err(OverlayError::NoResult));
    assert_eq!(OverlayError::NoResult.message(), "Overlay closed without result");
}

#[test]
fn left_click_is_reported() {
    let mut s = Interaction::new();
    s.pointer_frame(&[
        event(1.0, 2.0, PointerEventKind::Motion),
        press(30.5, 40.25, LEFT_BUTTON),
    ]);
    assert_eq!(s.result, clicked(30.5, 40.25));
    assert!(!s.running);
    assert_eq!(s.finish(), Ok(OverlayResult::Click { x: d(30.5), y: d(40.25) }));
    assert_eq!(LEFT_BUTTON, 0x110);
}

#[test]
fn click_without_a_position() {
    let mut s = Interaction::new();
    s.pointer_frame(&[event(7.5, 8.0, PointerEventKind::Motion)]);
    s.pointer_frame(&[event(0.0, 0.0, PointerEventKind::Other), press(0.0, -0.0, 272)]);
    assert_eq!(s.result, clicked(7.5, 8.0));
    // One coordinate is enough.
    let mut s = Interaction::new();
    s.pointer_frame(&[press(0.0, 5.0, 272)]);
    assert_eq!(s.result, clicked(0.0, 5.0));
    // Nothing is known of the pointer.
    let mut s = Interaction::new();
    s.pointer_frame(&[press(0.0, 0.0, 272)]);
    assert_eq!(s.result, clicked(-1.0, -1.0));
}

#[test]
fn other_buttons_do_nothing() {
    let mut s = Interaction::new();
    let before = s;
    s.pointer_frame(&[press(3.0, 4.0, 273), event(3.0, 4.0, PointerEventKind::Other)]);
    assert_eq!(s, before);
}

#[test]
fn motion_asks_for_a_redraw() {
    let mut s = Interaction::new();
    assert!(!s.frame());
    s.pointer_frame(&[event(3.0, 4.0, PointerEventKind::Motion)]);
    assert!(s.frame() && s.running);
    assert_eq!((s.pointer_x, s.pointer_y), (d(3.0), d(4.0)));
    s.drawn();
    assert!(!s.frame());
}

#[test]
fn leaving_dismisses() {
    let mut s = Interaction::new();
    s.pointer_frame(&[press(1.0, 1.0, 272), event(0.0, 0.0, PointerEventKind::Leave)]);
    assert_eq!(s.result, Some(OverlayResult::Dismissed));
    assert!(!s.running);
    let mut s = Interaction::new();
    s.leave();
    assert_eq!(s.finish(), Ok(OverlayResult::Dismissed));
    let mut s = Interaction::new();
    s.request_close();
    assert_eq!(s.finish(), Ok(OverlayResult::Dismissed));
}

#[test]
fn escape_dismisses_and_other_keys_do_not() {
    let mut s = Interaction::new();
    let before = s;
    s.press_key(0x61);
    assert_eq!(s, before);
    s.press_key(ESCAPE);
    assert_eq!(s.finish(), Ok(OverlayResult::Dismissed));
    assert!(!s.running);
}

#[test]
fn window_is_configured() {
    let mut s = Interaction::new();
    s.configure();
    assert!(s.configured && s.running);
}

#[test]
fn batches_of_events() {
    let all = [
        event(1.0, 2.0, PointerEventKind::Motion),
        press(9.0, 9.0, 1),
        event(3.0, 4.0, PointerEventKind::Motion),
        press(0.0, 0.0, 272),
    ];
    let mut whole = Interaction::new();
    whole.pointer_frame(&all);
    for cut in 0..=all.len() {
        let mut s = Interaction::new();
        s.pointer_frame(&all[..cut]);
        s.pointer_frame(&all[cut..]);
        assert_eq!(s, whole);
    }
    assert_eq!(whole.result, clicked(3.0, 4.0));
}

#[test]
fn devices_are_acquired_once() {
    let mut s = Interaction::new();
    assert!(s.new_capability(Capability::Keyboard));
    assert!(!s.new_capability(Capability::Keyboard));
    assert!(s.new_capability(Capability::Pointer));
    assert!(!s.new_capability(Capability::Other));
    s.remove_capability(Capability::Keyboard);
    assert!(!s.new_capability(Capability::Pointer));
    assert!(s.new_capability(Capability::Keyboard));
    s.remove_capability(Capability::Pointer);
    s.remove_capability(Capability::Other);
    assert!(!s.pointer && s.keyboard);
}

#[test]
fn sizes_of_windows() {
    assert!(can_show(1200, 800));
    assert!(can_show(0, 0));
    assert!(!can_show(536870912, 0));
    assert!(!can_show(1, 536870912));
    assert!(can_show(1, 536870911));
    assert!(!can_show(4294967295, 4294967295));
}

#[test]
fn frame_before_the_pointer_was_seen() {
    let pixels: Vec<u8> = (0..4 * 3 * 4).collect();
    let mut canvas = vec![7u8; 64];
    paint_frame(&mut canvas, &pixels, 4, 3, d(-1.0), d(-1.0));
    assert_eq!(canvas[..48], pixels[..]);
    assert_eq!(canvas[48..], [7u8; 16]);
    paint_frame(&mut canvas, &pixels, 4, 3, d(1.0), d(f64::NAN));
    assert_eq!(canvas[..48], pixels[..]);
}

#[test]
fn frame_with_a_crosshair() {
    let pixels: Vec<u8> = (0..4 * 3 * 4).collect();
    let mut canvas = vec![7u8; 64];
    paint_frame(&mut canvas, &pixels, 4, 3, d(1.9), d(2.0));
    let cross = [0x00, 0x00, 0xff, 0xcc];
    for y in 0..3 {
        for x in 0..4 {
            let i = (y * 4 + x) * 4;
            let wanted = if x == 1 || y == 2 { &cross[..] } else { &pixels[i..i + 4] };
            assert_eq!(&canvas[i..i + 4], wanted, "{x},{y}");
        }
    }
    assert_eq!(canvas[48..], [7u8; 16]);
}

#[test]
fn frame_without_the_right_pixels() {
    let mut canvas = vec![7u8; 50];
    paint_frame(&mut canvas, &[1, 2, 3], 4, 3, d(-1.0), d(0.0));
    assert_eq!(canvas[..48], [0x20, 0x20, 0x20, 0xff].repeat(12)[..]);
    assert_eq!(canvas[48..], [7, 7]);
}
