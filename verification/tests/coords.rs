use mouse_jump::coords::{CoordMapper, DesktopBounds, Monitor};
use mouse_jump::double::Double;
use mouse_jump::layout::{
    cursor_monitor, delay_seconds, overlay_position, thumbnail_limits, Plan, BORDER_WIDTH,
    MAX_OVERLAY_HEIGHT, MAX_OVERLAY_WIDTH,
};

fn monitor(x: i32, y: i32, width: u32, height: u32) -> Monitor {
    Monitor { name: "M".to_string(), x, y, width, height, scale: "1".to_string() }
}

fn d(v: f64) -> Double {
    Double::from_bits(v.to_bits())
}

fn f(v: Double) -> f64 {
    f64::from_bits(v.to_bits())
}

/// What `compute_overlay_size` computes, on hardware.
fn fitted(w: u32, h: u32, max_w: u32, max_h: u32) -> (u32, u32) {
    let aspect = w as f64 / h as f64;
    let (fw, fh) = if max_w as f64 / max_h as f64 > aspect {
        ((max_h as f64 * aspect) as u32, max_h)
    } else {
        (max_w, (max_w as f64 / aspect) as u32)
    };
    (fw.max(1), fh.max(1))
}

#[test]
fn bounds_of_two_monitors() {
    let ms = [monitor(0, 0, 3840, 2160), monitor(3840, -100, 1920, 1080)];
    assert!(DesktopBounds::can_compute(&ms));
    assert_eq!(
        DesktopBounds::from_monitors(&ms),
        DesktopBounds { x: 0, y: -100, width: 5760, height: 2260 }
    );
}

#[test]
fn bounds_without_monitors() {
    assert!(DesktopBounds::can_compute(&[]));
    assert_eq!(
        DesktopBounds::from_monitors(&[]),
        DesktopBounds { x: 0, y: 0, width: 1920, height: 1080 }
    );
}

#[test]
fn bounds_that_are_too_large() {
    assert!(!DesktopBounds::can_compute(&[monitor(1, 0, 2147483647, 1)]));
    assert!(DesktopBounds::can_compute(&[monitor(0, 0, 2147483647, 1)]));
    let far = [monitor(-2147483648, 0, 1, 1), monitor(2147483646, 0, 1, 1)];
    assert!(!DesktopBounds::can_compute(&far));
}

#[test]
fn bounds_by_place_only() {
    let a = [monitor(0, 0, 3840, 2160), monitor(3840, -100, 1920, 1080)];
    let mut b = [monitor(3840, -100, 1920, 1080), monitor(0, 0, 3840, 2160)];
    b[0].name = "other".to_string();
    b[1].scale = "2".to_string();
    assert_eq!(DesktopBounds::from_monitors(&a), DesktopBounds::from_monitors(&b));
    let more = [monitor(0, 0, 3840, 2160), monitor(3840, -100, 1920, 1080), monitor(100, 5, 9, 9)];
    assert_eq!(DesktopBounds::from_monitors(&a), DesktopBounds::from_monitors(&more));
}

#[test]
fn overlay_size_by_shape_only() {
    let size = |width, height| {
        let desktop = DesktopBounds { x: 7, y: -7, width, height };
        CoordMapper::compute_overlay_size(&desktop, 1200, 333)
    };
    assert_eq!(size(5760, 2160), size(8, 3));
    assert_eq!(size(5760, 2160), size(8000, 3000));
    assert_eq!(size(0, 5), size(0, 70));
    assert_eq!(size(0, 0), size(9, 0));
}

#[test]
fn overlay_size_is_that_of_f64() {
    let sizes = [0u32, 1, 2, 3, 7, 100, 1080, 1200, 1920, 2160, 5760, 65537, 4294967295];
    let boxes = [0u32, 1, 2, 5, 270, 800, 1200, 4294967295];
    for w in sizes {
        for h in sizes {
            for max_w in boxes {
                for max_h in boxes {
                    let desktop = DesktopBounds { x: 0, y: 0, width: w, height: h };
                    assert_eq!(
                        CoordMapper::compute_overlay_size(&desktop, max_w, max_h),
                        fitted(w, h, max_w, max_h),
                        "{w}x{h} in {max_w}x{max_h}"
                    );
                }
            }
        }
    }
}

#[test]
fn overlay_size_of_a_wide_desktop() {
    let desktop = DesktopBounds { x: 0, y: 0, width: 5760, height: 2160 };
    assert_eq!(CoordMapper::compute_overlay_size(&desktop, 1200, 540), (1200, 450));
    assert_eq!(CoordMapper::compute_overlay_size(&desktop, 1440, 300), (800, 300));
}

#[test]
fn free_side_is_proportional() {
    for (w, h, max_w, max_h) in [
        (5760u64, 2160u64, 1200u64, 540u64),
        (5760, 2160, 1440, 300),
        (1048576, 3, 1048576, 1048576),
        (7, 1048575, 1000000, 999983),
        (3, 7, 100, 49),
        (49, 7, 700, 33),
        (1000000, 1, 1, 1000000),
    ] {
        let desktop = DesktopBounds { x: 0, y: 0, width: w as u32, height: h as u32 };
        let (fw, fh) = CoordMapper::compute_overlay_size(&desktop, max_w as u32, max_h as u32);
        let (fw, fh) = (u64::from(fw), u64::from(fh));
        let proportional = |size: u64, c: u64, p: u64| {
            size == (c / p).max(1) || c % p == 0 && size + 1 == c / p
        };
        assert!(
            fh == max_h && proportional(fw, max_h * w, h)
                || fw == max_w && proportional(fh, max_w * h, w),
            "{w}x{h} in {max_w}x{max_h}: {fw}x{fh}"
        );
    }
}

#[test]
fn clicks_are_mapped_as_f64_maps_them() {
    let desktops = [
        DesktopBounds { x: 0, y: -100, width: 5760, height: 2260 },
        DesktopBounds { x: -1920, y: 7, width: 3, height: 1 },
        DesktopBounds { x: -2147483648, y: 2147483647, width: 4294967295, height: 0 },
    ];
    let at = [0.0, -0.0, 0.5, 1.0, 123.4375, 599.9, 1200.0, -1.0, 1e300, f64::NAN, f64::INFINITY];
    for desktop in desktops {
        for (w, h) in [(1200u32, 450u32), (1, 1), (7, 3), (0, 5)] {
            let mapper = CoordMapper::new(desktop, w, h);
            for x in at {
                for y in at {
                    let (rx, ry) = mapper.overlay_to_desktop(d(x), d(y));
                    let wx = (x / w as f64) * desktop.width as f64 + desktop.x as f64;
                    let wy = (y / h as f64) * desktop.height as f64 + desktop.y as f64;
                    assert!(f(rx).to_bits() == wx.to_bits() || f(rx).is_nan() && wx.is_nan());
                    assert!(f(ry).to_bits() == wy.to_bits() || f(ry).is_nan() && wy.is_nan());
                }
            }
        }
    }
}

#[test]
fn edges_and_middle_of_the_overlay() {
    let desktop = DesktopBounds { x: -1920, y: 0, width: 5760, height: 2160 };
    let mapper = CoordMapper::new(desktop, 1200, 450);
    let (x, y) = mapper.overlay_to_desktop(d(0.0), d(0.0));
    assert_eq!((f(x), f(y)), (-1920.0, 0.0));
    // The zero that has a sign is the same place.
    let (x, y) = mapper.overlay_to_desktop(d(-0.0), d(-0.0));
    assert_eq!((f(x), f(y).to_bits()), (-1920.0, 0));
    let (x, y) = mapper.overlay_to_desktop(d(1200.0), d(450.0));
    assert_eq!((f(x), f(y)), (3840.0, 2160.0));
    let (x, y) = mapper.overlay_to_desktop(d(600.0), d(225.0));
    assert_eq!((f(x), f(y)), (960.0, 1080.0));
}

#[test]
fn monitor_under_the_cursor() {
    let ms = [
        monitor(0, 0, 100, 100),
        monitor(100, 0, 100, 100),
        monitor(50, 0, 100, 100),
    ];
    assert_eq!(cursor_monitor(&ms, 0, 0), 0);
    assert_eq!(cursor_monitor(&ms, 99, 99), 0);
    assert_eq!(cursor_monitor(&ms, 100, 0), 1);
    assert_eq!(cursor_monitor(&ms, 149, 50), 1);
    // On none of them: the first.
    assert_eq!(cursor_monitor(&ms, 200, 0), 0);
    assert_eq!(cursor_monitor(&ms, 10, -1), 0);
}

#[test]
fn limits_of_the_thumbnail() {
    let limits = |width, height| thumbnail_limits(&DesktopBounds { x: 0, y: 0, width, height });
    assert_eq!(limits(1920, 1080), (480, 270));
    assert_eq!(limits(1923, 1083), (480, 270));
    assert_eq!(limits(4800, 3200), (1200, 800));
    assert_eq!(limits(9999, 9999), (MAX_OVERLAY_WIDTH, MAX_OVERLAY_HEIGHT));
    assert_eq!(limits(3, 0), (0, 0));
    for v in [0u32, 1, 5, 4799, 4801, 4294967295] {
        assert_eq!(limits(v, 0).0, ((v as f64 * 0.25) as u32).min(1200));
    }
    assert_eq!(BORDER_WIDTH, 2);
}

#[test]
fn overlay_is_centered_and_kept_on_the_monitor() {
    assert_eq!(overlay_position(960, 0, 1920, 480), 720);
    assert_eq!(overlay_position(5, 0, 1920, 480), 0);
    assert_eq!(overlay_position(1919, 0, 1920, 480), 1440);
    assert_eq!(overlay_position(-1000, -1920, 1920, 481), -1240);
    // A cursor that is on another monitor.
    assert_eq!(overlay_position(5000, 0, 1920, 480), 1440);
    // No room to move.
    assert_eq!(overlay_position(3, 0, 480, 480), 0);
}

#[test]
fn plan_of_two_monitors() {
    let ms = [monitor(0, 0, 3840, 2160), monitor(3840, 0, 1920, 1080)];
    let plan = Plan::new(&ms, 4000, 500);
    assert_eq!(plan.desktop, DesktopBounds { x: 0, y: 0, width: 5760, height: 2160 });
    assert_eq!(plan.monitor, DesktopBounds { x: 3840, y: 0, width: 1920, height: 1080 });
    // A quarter of the primary monitor, with the desktop's proportions.
    assert_eq!(plan.primary, DesktopBounds { x: 0, y: 0, width: 3840, height: 2160 });
    assert_eq!((plan.thumb_width, plan.thumb_height), (960, 360));
    assert!(plan.can_position(4000, 500, 960, 360));
    assert_eq!(plan.position(4000, 500, 960, 360), (3840, 320));
    // An overlay that is larger than the monitor has no place.
    assert!(!plan.can_position(4000, 500, 1921, 450));
    assert!(!plan.can_position(4000, 500, 1200, 1081));
}

#[test]
fn plan_of_many_small_monitors() {
    let ms: Vec<Monitor> = (0..10).map(|i| monitor(i * 300, 0, 300, 200)).collect();
    let plan = Plan::new(&ms, 1250, 199);
    assert_eq!(plan.desktop, DesktopBounds { x: 0, y: 0, width: 3000, height: 200 });
    assert_eq!(plan.monitor, DesktopBounds { x: 1200, y: 0, width: 300, height: 200 });
    assert_eq!((plan.thumb_width, plan.thumb_height), (75, 5));
    assert!(plan.can_position(1250, 199, 75, 5));
    assert_eq!(plan.position(1250, 199, 75, 5), (1213, 195));
}

#[test]
fn delay_from_the_arguments() {
    let args = |v: &[&str]| v.iter().map(|s| s.to_string()).collect::<Vec<String>>();
    assert_eq!(delay_seconds(&args(&["mouse-jump", "--delay", "3"])), Some(3));
    assert_eq!(delay_seconds(&args(&["mouse-jump"])), None);
    assert_eq!(delay_seconds(&args(&["mouse-jump", "--delay"])), None);
    assert_eq!(delay_seconds(&args(&["mouse-jump", "--delay", "-3"])), None);
    assert_eq!(delay_seconds(&args(&["mouse-jump", "--delay", "x", "--delay", "4"])), None);
    assert_eq!(delay_seconds(&args(&["--delay", "+18446744073709551615"])), Some(u64::MAX));
    assert_eq!(delay_seconds(&args(&["--delay", "18446744073709551616"])), None);
}
