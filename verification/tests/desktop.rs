use mouse_jump::commands::{check, nonempty};
use mouse_jump::coords::{CoordMapper, DesktopBounds};
use mouse_jump::double::Double;
use mouse_jump::kwin::{
    cursor_script, parse_cursor_report, positioning_script, read_cursor_report, script_object,
    shortcut_action, warp_script, CursorError,
};
use mouse_jump::warp::{
    dotool_command, dotool_fraction, failure_message, first_step, kdotool_args, next_step,
    ydotool_args, ydotool_coordinate, Step, Strategy,
};

fn d(v: f64) -> Double {
    Double::from_bits(v.to_bits())
}

#[test]
fn cursor_position_is_read_back() {
    for (x, y) in [(0, 0), (1920, -5), (-2147483648, 2147483647)] {
        let journal = format!("noise\nMOUSE_JUMP_CURSOR:{x},{y}\nmore noise\n");
        assert_eq!(parse_cursor_report(&journal), Ok((x, y)));
    }
}

#[test]
fn last_cursor_position_counts() {
    let journal = "MOUSE_JUMP_CURSOR:1,2\nMOUSE_JUMP_CURSOR: 3 , +4 \r\nMOUSE_JUMP_CURSOR:5,6,7\n";
    assert_eq!(parse_cursor_report(journal), Ok((3, 4)));
    // A number that cannot be read is zero.
    assert_eq!(parse_cursor_report("MOUSE_JUMP_CURSOR:1.5,9"), Ok((0, 9)));
    assert_eq!(parse_cursor_report("MOUSE_JUMP_CURSOR:,2147483648"), Ok((0, 0)));
}

#[test]
fn no_cursor_position() {
    for journal in ["", "\n\n", " MOUSE_JUMP_CURSOR:1,2", "MOUSE_JUMP_CURSOR:12", "js: x"] {
        assert_eq!(parse_cursor_report(journal), Err(CursorError::NotReported));
    }
    assert_eq!(
        CursorError::NotReported.message(),
        "Failed to read cursor position from KWin script output"
    );
}

#[test]
fn cursor_position_among_bytes() {
    assert_eq!(read_cursor_report(b"\xff\xfe\nMOUSE_JUMP_CURSOR:10,20\n"), Ok((10, 20)));
    assert_eq!(read_cursor_report(b"MOUSE_JUMP_CURSOR:1\xff,20\n"), Ok((0, 20)));
    assert_eq!(read_cursor_report(b""), Err(CursorError::NotReported));
}

#[test]
fn scripts() {
    assert_eq!(
        cursor_script(),
        r#"console.log("MOUSE_JUMP_CURSOR:" + workspace.cursorPos.x + "," + workspace.cursorPos.y);"#
    );
    assert_eq!(script_object(17), "/Scripting/Script17");
    assert_eq!(script_object(-1), "/Scripting/Script-1");
    assert_eq!(
        warp_script(d(1919.9), d(-0.5)),
        "workspace.cursorPos = Qt.point(1919, 0);"
    );
    assert_eq!(
        warp_script(d(f64::NAN), d(-1e10)),
        "workspace.cursorPos = Qt.point(0, -2147483648);"
    );
}

#[test]
fn script_that_positions_the_window() {
    let (x, y, w, h) = (-1920, 35, 1200, 450);
    let wanted = format!(
        r#"workspace.windowAdded.connect(function(win) {{
    if (win.resourceClass === "mouse-jump" || win.resourceName === "mouse-jump") {{
        win.noBorder = true;
        win.keepAbove = true;
        var target = {{x: {x}, y: {y}, width: {w}, height: {h}}};
        win.frameGeometry = target;
        win.frameGeometryChanged.connect(function() {{
            if (win.frameGeometry.x !== {x} || win.frameGeometry.y !== {y}) {{
                win.frameGeometry = target;
            }}
        }});
    }}
}});"#
    );
    assert_eq!(positioning_script(x, y, w, h), wanted);
}

#[test]
fn shortcut_names() {
    assert_eq!(
        shortcut_action(),
        vec!["mouse-jump", "activate", "Mouse Jump", "Activate Mouse Jump"]
    );
}

#[test]
fn order_of_the_strategies() {
    let order = [
        Strategy::Dotool,
        Strategy::Ydotool,
        Strategy::Kdotool,
        Strategy::KwinScript,
    ];
    for working in 0..=order.len() {
        let mut step = first_step();
        let mut tried = Vec::new();
        while let Step::Try { strategy } = step {
            tried.push(strategy);
            step = next_step(strategy, strategy == *order.get(working).unwrap_or(&strategy) && working < 4);
        }
        assert_eq!(step, if working < 4 { Step::Warped } else { Step::Failed });
        assert_eq!(tried, order[..(working + 1).min(4)].to_vec());
    }
    assert_eq!(
        failure_message("12", "-3"),
        "Failed to warp cursor to (12, -3). None of the strategies worked."
    );
}

#[test]
fn what_the_tools_are_told() {
    assert_eq!(kdotool_args(d(12.9), d(-3.9)), vec!["mousemove", "12", "-3"]);
    assert_eq!(
        ydotool_args(d(960.0), d(1080.0), &DesktopBounds { x: 0, y: 0, width: 1920, height: 1080 }),
        vec!["mousemove", "--absolute", "-x", "16383", "-y", "32767"]
    );
    assert_eq!(
        dotool_command("0.5", "1"),
        "echo 'mouseto 0.5 1' | dotool"
    );
}

#[test]
fn coordinates_of_the_tools_are_those_of_f64() {
    let values = [0.0, 0.5, 1.0, 959.3, 1919.99, 1920.0, -7.0, 1e12, f64::NAN, f64::INFINITY];
    for v in values {
        for origin in [0i32, 5, -1920, i32::MIN, i32::MAX] {
            for extent in [0u32, 1, 7, 1920, 4294967295] {
                let q = (v - origin as f64) / extent as f64;
                assert_eq!(ydotool_coordinate(d(v), origin, extent), (q * 32767.0) as i32);
                let r = f64::from_bits(dotool_fraction(d(v), origin, extent).to_bits());
                assert!(r.to_bits() == q.to_bits() || r.is_nan() && q.is_nan());
            }
        }
    }
    // From one edge of the desktop to the other.
    assert_eq!(ydotool_coordinate(d(0.0), 0, 5760), 0);
    assert_eq!(ydotool_coordinate(d(-0.0), 0, 5760), 0);
    assert_eq!(ydotool_coordinate(d(5760.0), 0, 5760), 32767);
}

#[test]
fn tools_reach_a_desktop_that_begins_elsewhere() {
    let desktop = DesktopBounds { x: -1920, y: 100, width: 3840, height: 1080 };
    let mapper = CoordMapper::new(desktop, 480, 135);
    for (at, fraction, tablet) in [(0.0, 0.0, 0), (240.0, 0.5, 16383), (480.0, 1.0, 32767)] {
        let (x, _) = mapper.overlay_to_desktop(d(at), d(0.0));
        assert_eq!(dotool_fraction(x, desktop.x, desktop.width), d(fraction));
        assert_eq!(ydotool_coordinate(x, desktop.x, desktop.width), tablet);
    }
    assert_eq!(
        ydotool_args(d(-1920.0), d(1180.0), &desktop),
        vec!["mousemove", "--absolute", "-x", "0", "-y", "32767"]
    );
}

#[test]
fn commands_that_fail() {
    assert!(check("spectacle", true, b"warning").is_ok());
    let e = check("spectacle", false, b"no \xe2\x82 screen").unwrap_err();
    assert_eq!(e.program, "spectacle");
    assert_eq!(e.message(), "spectacle failed: no \u{fffd} screen");
    let e = check("dotool", false, "größer".as_bytes()).unwrap_err();
    assert_eq!(e.message(), "dotool failed: größer");
}

#[test]
fn replies_with_nothing_in_them() {
    assert_eq!(nonempty::<u8>(None), None);
    assert_eq!(nonempty::<u8>(Some(vec![])), None);
    assert_eq!(nonempty(Some(vec![1, 2])), Some(vec![1, 2]));
}
