use mouse_jump::text::parses_as_float;
use mouse_jump::kscreen::{parse_kscreen_doctor_output, read_layout, strip_ansi_codes, LayoutError};

#[test]
fn test_parse_kscreen_doctor_output() {
    let output = r#"Output: 1 DP-1 some-uuid-here
        enabled
        connected
        priority 1
        Modes:  0:3840x2160@60  1:2560x1440@60  
        Geometry: 0,0 3840x2160
        Scale: 1.5
        Rotation: 1
Output: 2 HDMI-1 another-uuid
        enabled
        connected
        priority 2
        Modes:  0:1920x1080@60  
        Geometry: 3840,0 1920x1080
        Scale: 1
        Rotation: 1
Output: 3 DP-2 third-uuid
        disabled
        disconnected
"#;
    let monitors = parse_kscreen_doctor_output(output).unwrap();
    assert_eq!(monitors.len(), 2);
    assert_eq!(monitors[0].name, "DP-1");
    assert_eq!(monitors[0].x, 0);
    assert_eq!(monitors[0].y, 0);
    assert_eq!(monitors[0].width, 3840);
    assert_eq!(monitors[0].height, 2160);
    assert_eq!(monitors[0].scale.parse::<f64>().unwrap(), 1.5);
    assert_eq!(monitors[1].name, "HDMI-1");
    assert_eq!(monitors[1].x, 3840);
    assert_eq!(monitors[1].width, 1920);
}

#[test]
fn last_output_counts_too() {
    let text = "Output: 7 eDP-1 x\nenabled\nGeometry: -1920,-5 1920x1200\nScale:  2.25 ";
    let monitors = parse_kscreen_doctor_output(text).unwrap();
    assert_eq!(monitors.len(), 1);
    assert_eq!((monitors[0].x, monitors[0].y), (-1920, -5));
    assert_eq!((monitors[0].width, monitors[0].height), (1920, 1200));
    assert_eq!(monitors[0].scale, "2.25");
}

#[test]
fn outputs_without_a_name_or_a_scale() {
    let text = "Output: 1\r\nenabled\r\nGeometry: 1,2 3x4\r\n";
    let monitors = parse_kscreen_doctor_output(text).unwrap();
    assert_eq!(monitors[0].name, "unknown");
    assert_eq!(monitors[0].scale.parse::<f64>().unwrap(), 1.0);
    assert_eq!((monitors[0].x, monitors[0].y), (1, 2));
    assert_eq!((monitors[0].width, monitors[0].height), (3, 4));
}

#[test]
fn numbers_that_cannot_be_read_are_zero() {
    let text = "Output: 1 A u\nenabled\nGeometry: +7,2147483648 10x-1\n";
    let monitors = parse_kscreen_doctor_output(text).unwrap();
    assert_eq!((monitors[0].x, monitors[0].y), (7, 0));
    assert_eq!((monitors[0].width, monitors[0].height), (10, 0));
    // A word with three parts says nothing.
    let text = "Output: 1 A u\nenabled\nGeometry: 5,6 1x1\nGeometry: 1,2,3 4x5x6\n";
    let monitors = parse_kscreen_doctor_output(text).unwrap();
    assert_eq!((monitors[0].x, monitors[0].y), (5, 6));
    assert_eq!((monitors[0].width, monitors[0].height), (1, 1));
}

#[test]
fn scale_that_cannot_be_read_is_one() {
    let output = "Output: 7\nenabled\nGeometry: x,5 10x20\nScale: big\n";
    let m = parse_kscreen_doctor_output(output).unwrap();
    assert_eq!(m.len(), 1);
    assert_eq!(m[0].name, "unknown");
    assert_eq!((m[0].x, m[0].y, m[0].width, m[0].height), (0, 5, 10, 20));
    assert_eq!(m[0].scale.parse::<f64>().unwrap(), 1.0);
    // Also where an earlier line gave another one.
    let output = "Output: 7 A\nenabled\nGeometry: 0,0 10x20\nScale: 1.5\nScale: 1,25\n";
    let m = parse_kscreen_doctor_output(output).unwrap();
    assert_eq!(m[0].scale, "1.0");
}

#[test]
fn texts_that_are_numbers_are_those_that_parse() {
    let texts = [
        "", "+", "-", ".", "+.", "e", "1", "-1", "+1", "1.", ".1", "1.5", "-.5e1", "1.e5", ".e5",
        "1e", "1e+", "1e-7", "1E+7", "1e1.5", "1e5e5", "1.2.3", "e5", "--1", "+-1", "1_000",
        "1 ", " 1", "inf", "-Inf", "INFINITY", "+infinit", "infinityx", "nan", "-NaN", "nann",
        "0x10", "1f", "१", "1e99999", "00", "1,5", "in", "Nan", "iNf", "1e٣", "\u{130}nf",
        "1.0", "2.25", "big", "-", "1-", "1e--5",
    ];
    for text in texts {
        let chars: Vec<char> = text.chars().collect();
        assert_eq!(parses_as_float(&chars), text.parse::<f64>().is_ok(), "{text:?}");
    }
    // All texts of up to five of these characters.
    let letters = ['1', '.', 'e', '-', '+', 'E', 'n'];
    let mut all: Vec<String> = vec![String::new()];
    let mut last = all.clone();
    for _ in 0..5 {
        let mut next = Vec::new();
        for t in &last {
            for c in letters {
                next.push(format!("{t}{c}"));
            }
        }
        all.extend(next.iter().cloned());
        last = next;
    }
    for text in all {
        let chars: Vec<char> = text.chars().collect();
        assert_eq!(parses_as_float(&chars), text.parse::<f64>().is_ok(), "{text:?}");
    }
}

#[test]
fn lines_before_the_first_output_say_nothing() {
    let text = "enabled\nGeometry: 1,2 3x4\nOutput: 1 A u\n";
    let e = parse_kscreen_doctor_output(text).unwrap_err();
    assert!(matches!(e, LayoutError::NoMonitors));
    assert_eq!(e.message(), "No monitors found in kscreen-doctor output");
}

#[test]
fn disabled_again_or_without_width() {
    let text = "Output: 1 A u\nenabled\nGeometry: 0,0 3x4\ndisabled\n\
                Output: 2 B u\nenabled\nGeometry: 0,0 0x4\n";
    assert!(parse_kscreen_doctor_output(text).is_err());
    assert!(parse_kscreen_doctor_output("").is_err());
}

#[test]
fn escape_sequences_are_stripped() {
    assert_eq!(strip_ansi_codes("\u{1b}[01;32mOutput: \u{1b}[0;0m1"), "Output: 1");
    assert_eq!(strip_ansi_codes("a\u{1b}b\u{1b}"), "ab");
    assert_eq!(strip_ansi_codes("a\u{1b}[12;"), "a");
    assert_eq!(strip_ansi_codes("a\u{1b}\u{1b}[1mb"), "ab");
    assert_eq!(strip_ansi_codes("über"), "über");
    // What has been stripped is not changed by stripping again.
    let once = strip_ansi_codes("\u{1b}[1mx\u{1b}[0m y");
    assert_eq!(strip_ansi_codes(&once), once);
}

#[test]
fn one_escape_sequence_goes() {
    for sequence in ["\u{1b}[m", "\u{1b}[01;32m", "\u{1b}[?25H", "\u{1b}[2K"] {
        let text = format!("before [1m {sequence}after");
        assert_eq!(strip_ansi_codes(&text), "before [1m after");
    }
}

#[test]
fn layouts_are_joined() {
    let a = "Output: 1 A u\nenabled\nGeometry: 0,0 10x20\n";
    let b = "Output: 2 B u\nenabled\nGeometry: 10,0 30x40\nScale: 2\n";
    let both = parse_kscreen_doctor_output(&format!("{a}{b}")).unwrap();
    let (one, two) =
        (parse_kscreen_doctor_output(a).unwrap(), parse_kscreen_doctor_output(b).unwrap());
    let told = |m: &mouse_jump::coords::Monitor| {
        (m.name.clone(), m.x, m.y, m.width, m.height, m.scale.clone())
    };
    let separate: Vec<_> = one.iter().chain(two.iter()).map(told).collect();
    assert_eq!(both.iter().map(told).collect::<Vec<_>>(), separate);
    // However it is indented.
    let indented: String = b.lines().map(|l| format!("\t  \u{3000}{l}\n")).collect();
    let m = parse_kscreen_doctor_output(&indented).unwrap();
    assert_eq!(m.iter().map(told).collect::<Vec<_>>(), two.iter().map(told).collect::<Vec<_>>());
}

#[test]
fn layout_is_read_from_what_the_command_printed() {
    let out = "\u{1b}[1mOutput: 1 DP-1 u\u{1b}[0m\n\tenabled\n\tGeometry: 10,20 30x40\n";
    let monitors = read_layout(true, out.as_bytes(), b"").unwrap();
    assert_eq!(monitors.len(), 1);
    assert_eq!(monitors[0].name, "DP-1");
    assert_eq!((monitors[0].x, monitors[0].y), (10, 20));

    let e = read_layout(true, b"nothing", b"").unwrap_err();
    assert!(matches!(e, LayoutError::NoMonitors));

    let e = read_layout(false, out.as_bytes(), b"no \xff display").unwrap_err();
    assert!(matches!(e, LayoutError::Command(_)));
    assert_eq!(e.message(), "kscreen-doctor failed: no \u{fffd} display");
}

#[test]
fn bytes_that_are_not_utf8_are_replaced() {
    let mut out = b"Output: 1 D".to_vec();
    out.push(0xc3);
    out.extend_from_slice(b" u\nenabled\nGeometry: 0,0 1x1\n");
    let monitors = read_layout(true, &out, b"").unwrap();
    assert_eq!(monitors[0].name, "D\u{fffd}");
    let monitors =
        read_layout(true, "Output: 1 Dé u\nenabled\nGeometry: 0,0 1x1\n".as_bytes(), b"").unwrap();
    assert_eq!(monitors[0].name, "Dé");
}

#[test]
fn printed_layout_is_read_back() {
    let wanted = [("DP-1", -5, 0, 3840u32, 2160u32, "1.5"), ("B", 3840, 7, 1920, 0, "1")];
    let mut text = String::new();
    for (i, (name, x, y, w, h, scale)) in wanted.iter().enumerate() {
        text += &format!(
            "Output: {} {}\nenabled\nGeometry: {},{} {}x{}\nScale: {}\n",
            i + 1, name, x, y, w, h, scale
        );
    }
    let monitors = parse_kscreen_doctor_output(&text).unwrap();
    assert_eq!(monitors.len(), wanted.len());
    for (m, (name, x, y, w, h, scale)) in monitors.iter().zip(wanted) {
        assert_eq!((m.name.as_str(), m.x, m.y), (name, x, y));
        assert_eq!((m.width, m.height, m.scale.as_str()), (w, h, scale));
    }
}
