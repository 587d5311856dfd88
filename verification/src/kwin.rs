//! Scripts that KWin runs, what they report, and the names by which KWin knows us.
use crate::double::Double;
use crate::kscreen;
use crate::text;
use vstd::prelude::*;

verus! {

/// What the line begins with in which the cursor script reports the position.
pub open spec fn cursor_mark() -> Seq<char> {
    "MOUSE_JUMP_CURSOR:"@
}

/// The script that reports where the cursor is.
pub fn cursor_script() -> (s: String)
    ensures
        s@
            == "console.log(\"MOUSE_JUMP_CURSOR:\" + workspace.cursorPos.x + \",\" + workspace.cursorPos.y);"@,
{
    "console.log(\"MOUSE_JUMP_CURSOR:\" + workspace.cursorPos.x + \",\" + workspace.cursorPos.y);".to_owned()
}

/// The position that a line reports: after the mark, exactly two parts with a comma between
/// them. A part that is not an `i32` counts as zero.
pub open spec fn reported(line: Seq<char>) -> Option<(int, int)> {
    if text::begins(line, cursor_mark()) {
        let p = text::pieces(line.skip(cursor_mark().len() as int), ',');
        if p.len() == 2 {
            let (lo, hi) = (i32::MIN as int, i32::MAX as int);
            Some(
                (
                    kscreen::parsed_or_zero(text::trimmed(p[0]), lo, hi),
                    kscreen::parsed_or_zero(text::trimmed(p[1]), lo, hi),
                ),
            )
        } else {
            None
        }
    } else {
        None
    }
}

/// The position that the last of those lines reports that report one.
pub open spec fn last_reported(lines: Seq<Seq<char>>) -> Option<(int, int)>
    decreases lines.len(),
{
    if lines.len() == 0 {
        None
    } else {
        match reported(lines.last()) {
            Some(at) => Some(at),
            None => last_reported(lines.drop_last()),
        }
    }
}

/// Why the cursor position is not known.
#[derive(Debug, Clone, Copy, PartialEq, Eq, Structural)]
pub enum CursorError {
    /// No line reports a position.
    NotReported,
}

impl CursorError {
    pub fn message(self) -> (s: String)
        ensures
            s@ == "Failed to read cursor position from KWin script output"@,
    {
        "Failed to read cursor position from KWin script output".to_owned()
    }
}

fn parse_report(line: &[char]) -> (r: Option<(i32, i32)>)
    ensures
        match (r, reported(line@)) {
            (Some(at), Some(found)) => at.0 == found.0 && at.1 == found.1,
            (None, None) => true,
            _ => false,
        },
{
    match text::strip_prefix(line, "MOUSE_JUMP_CURSOR:") {
        Some(at) => {
            let p = text::split(at, ',');
            if p.len() == 2 {
                let x: i32 = kscreen::i32_or_zero(text::trim(p[0]));
                let y: i32 = kscreen::i32_or_zero(text::trim(p[1]));
                Some((x, y))
            } else {
                None
            }
        },
        None => None,
    }
}

/// Reads the cursor position from the lines that KWin has written to the journal.
pub fn parse_cursor_report(journal: &str) -> (r: Result<(i32, i32), CursorError>)
    ensures
        match (r, last_reported(text::lines_of(journal@))) {
            (Ok(at), Some(found)) => at.0 == found.0 && at.1 == found.1,
            (Err(e), None) => e == CursorError::NotReported,
            _ => false,
        },
{
    let chars = text::chars_of(journal);
    let lines = text::lines(chars.as_slice());
    let ghost all = text::lines_of(journal@);
    let mut i: usize = lines.len();
    assert(all.take(i as int) =~= all);
    while i > 0
        invariant
            all == text::lines_of(journal@),
            i <= lines@.len() == all.len(),
            forall|k: int| 0 <= k < lines@.len() ==> (#[trigger] lines@[k])@ == all[k],
            last_reported(all) == last_reported(all.take(i as int)),
        decreases i,
    {
        proof {
            assert(all.take(i as int).drop_last() =~= all.take(i - 1));
            assert(all.take(i as int).last() == all[i - 1]);
        }
        if let Some(at) = parse_report(lines[i - 1]) {
            return Ok(at);
        }
        i = i - 1;
    }
    Err(CursorError::NotReported)
}

/// Reads the cursor position from the output of `journalctl`.
pub fn read_cursor_report(stdout: &[u8]) -> (r: Result<(i32, i32), CursorError>)
    ensures
        match (r, last_reported(text::lines_of(text::lossy_text(stdout@)))) {
            (Ok(at), Some(found)) => at.0 == found.0 && at.1 == found.1,
            (Err(e), None) => e == CursorError::NotReported,
            _ => false,
        },
{
    parse_cursor_report(text::lossy(stdout).as_str())
}

/// The line that the cursor script writes.
pub open spec fn report_line(x: int, y: int) -> Seq<char> {
    cursor_mark() + text::decimal_int(x) + seq![','] + text::decimal_int(y)
}

/// The position that the script wrote last is read back, whatever else is in the journal
/// before it, and whatever lines after it that report nothing.
pub proof fn law_cursor_read_back(
    before: Seq<Seq<char>>,
    x: int,
    y: int,
    after: Seq<Seq<char>>,
)
    requires
        i32::MIN <= x <= i32::MAX,
        i32::MIN <= y <= i32::MAX,
        forall|i: int| 0 <= i < after.len() ==> reported(#[trigger] after[i]) is None,
    ensures
        last_reported(before.push(report_line(x, y)) + after) == Some((x, y)),
    decreases after.len(),
{
    let all = before.push(report_line(x, y)) + after;
    if after.len() > 0 {
        let rest = after.drop_last();
        assert forall|i: int| 0 <= i < rest.len() implies reported(#[trigger] rest[i]) is None by {
            assert(reported(after[i]) is None);
        }
        law_cursor_read_back(before, x, y, rest);
        assert(all.drop_last() =~= before.push(report_line(x, y)) + rest);
        assert(all.last() == after[after.len() - 1]);
    } else {
        assert(all =~= before.push(report_line(x, y)));
        lemma_reported(x, y);
    }
}

/// The same of the whole text of the journal, line by line.
pub proof fn law_journal_read_back(
    before: Seq<Seq<char>>,
    x: int,
    y: int,
    after: Seq<Seq<char>>,
)
    requires
        i32::MIN <= x <= i32::MAX,
        i32::MIN <= y <= i32::MAX,
        forall|i: int| 0 <= i < before.len() ==> text::is_line(#[trigger] before[i]),
        forall|i: int|
            0 <= i < after.len() ==> text::is_line(#[trigger] after[i]) && reported(
                after[i],
            ) is None,
    ensures
        last_reported(
            text::lines_of(text::joined(before.push(report_line(x, y)) + after)),
        ) == Some((x, y)),
{
    let line = report_line(x, y);
    let all = before.push(line) + after;
    law_cursor_read_back(before, x, y, after);
    reveal_strlit("MOUSE_JUMP_CURSOR:");
    text::lemma_decimal_chars(x);
    text::lemma_decimal_chars(y);
    let (dx, dy) = (text::decimal_int(x), text::decimal_int(y));
    assert(text::is_line(line)) by {
        let n = cursor_mark().len() as int;
        assert forall|i: int| 0 <= i < line.len() implies line[i] != '\n' by {
            if i < n {
                assert(line[i] == cursor_mark()[i]);
            } else if i < n + dx.len() {
                assert(line[i] == dx[i - n]);
            } else if i > n + dx.len() {
                assert(line[i] == dy[i - n - dx.len() - 1]);
            }
        }
        assert(line.last() == dy.last());
    }
    assert forall|i: int| 0 <= i < all.len() implies text::is_line(#[trigger] all[i]) by {
        if i < before.len() {
            assert(all[i] == before[i]);
        } else if i > before.len() {
            assert(all[i] == after[i - before.len() - 1]);
        }
    }
    text::law_lines_read_back(all);
}

proof fn lemma_reported(x: int, y: int)
    requires
        i32::MIN <= x <= i32::MAX,
        i32::MIN <= y <= i32::MAX,
    ensures
        reported(report_line(x, y)) == Some((x, y)),
{
    let line = report_line(x, y);
    let n = cursor_mark().len() as int;
    let (dx, dy) = (text::decimal_int(x), text::decimal_int(y));
    assert(line.take(n) =~= cursor_mark());
    assert(line.skip(n) =~= dx + seq![','] + dy);
    text::lemma_decimal_chars(x);
    text::lemma_decimal_chars(y);
    text::lemma_pieces_joined(dx, ',', dy);
    text::lemma_one_piece(dy, ',');
    assert(text::pieces(line.skip(n), ',') =~= seq![dx, dy]);
    text::lemma_trimmed_already(dx);
    text::lemma_trimmed_already(dy);
    text::law_decimal_read_back(x, i32::MIN as int, i32::MAX as int);
    text::law_decimal_read_back(y, i32::MIN as int, i32::MAX as int);
}

/// The object under which a loaded script is found on the bus.
pub fn script_object(script_id: i32) -> (s: String)
    ensures
        s@ == "/Scripting/Script"@ + text::decimal_int(script_id as int),
{
    let mut s = "/Scripting/Script".to_owned();
    text::append_int(&mut s, script_id as i64);
    s
}

/// The script that moves the cursor.
pub fn warp_script(x: Double, y: Double) -> (s: String)
    requires
        x.wf(),
        y.wf(),
    ensures
        s@ == "workspace.cursorPos = Qt.point("@ + text::decimal_int(
            x@.truncated(i32::MIN as int, i32::MAX as int),
        ) + ", "@ + text::decimal_int(y@.truncated(i32::MIN as int, i32::MAX as int)) + ");"@,
{
    let mut s = "workspace.cursorPos = Qt.point(".to_owned();
    text::append_int(&mut s, x.to_i32() as i64);
    text::append(&mut s, ", ");
    text::append_int(&mut s, y.to_i32() as i64);
    text::append(&mut s, ");");
    s
}

/// The text of the script that puts the overlay window in its place, and back there when
/// it is moved.
pub open spec fn positioning(x: int, y: int, w: int, h: int) -> Seq<char> {
    let (dx, dy, dw, dh) = (
        text::decimal_int(x),
        text::decimal_int(y),
        text::decimal_int(w),
        text::decimal_int(h),
    );
    "workspace.windowAdded.connect(function(win) {\n    if (win.resourceClass === \"mouse-jump\" || win.resourceName === \"mouse-jump\") {\n        win.noBorder = true;\n        win.keepAbove = true;\n        var target = {x: "@
        + dx + ", y: "@ + dy + ", width: "@ + dw + ", height: "@ + dh
        + "};\n        win.frameGeometry = target;\n        win.frameGeometryChanged.connect(function() {\n            if (win.frameGeometry.x !== "@
        + dx + " || win.frameGeometry.y !== "@ + dy
        + ") {\n                win.frameGeometry = target;\n            }\n        });\n    }\n});"@
}

/// The script that positions the mouse-jump window at (x, y) when it appears.
pub fn positioning_script(x: i32, y: i32, w: u32, h: u32) -> (s: String)
    ensures
        s@ == positioning(x as int, y as int, w as int, h as int),
{
    let mut s =
        "workspace.windowAdded.connect(function(win) {\n    if (win.resourceClass === \"mouse-jump\" || win.resourceName === \"mouse-jump\") {\n        win.noBorder = true;\n        win.keepAbove = true;\n        var target = {x: ".to_owned();
    text::append_int(&mut s, x as i64);
    text::append(&mut s, ", y: ");
    text::append_int(&mut s, y as i64);
    text::append(&mut s, ", width: ");
    text::append_int(&mut s, w as i64);
    text::append(&mut s, ", height: ");
    text::append_int(&mut s, h as i64);
    text::append(
        &mut s,
        "};\n        win.frameGeometry = target;\n        win.frameGeometryChanged.connect(function() {\n            if (win.frameGeometry.x !== ",
    );
    text::append_int(&mut s, x as i64);
    text::append(&mut s, " || win.frameGeometry.y !== ");
    text::append_int(&mut s, y as i64);
    text::append(
        &mut s,
        ") {\n                win.frameGeometry = target;\n            }\n        });\n    }\n});",
    );
    s
}

/// What a global shortcut is registered for: the component, the action, and how both are
/// called in the settings.
pub fn shortcut_action() -> (r: Vec<String>)
    ensures
        text::texts(r@) == seq![
            "mouse-jump"@,
            "activate"@,
            "Mouse Jump"@,
            "Activate Mouse Jump"@,
        ],
{
    let mut r: Vec<String> = Vec::new();
    r.push("mouse-jump".to_owned());
    r.push("activate".to_owned());
    r.push("Mouse Jump".to_owned());
    r.push("Activate Mouse Jump".to_owned());
    assert(text::texts(r@) =~= seq![
        "mouse-jump"@,
        "activate"@,
        "Mouse Jump"@,
        "Activate Mouse Jump"@,
    ]);
    r
}

/// A line reports a position if, after the mark, there are two parts with a comma between them:
/// each without the whitespace around it is an integer, or zero if it cannot be read. Any other
/// line reports none.
pub proof fn law_reported(a: Seq<char>, b: Seq<char>, c: Seq<char>, line: Seq<char>)
    requires
        !a.contains(','),
        !b.contains(','),
    ensures
        ({
            let mark = "MOUSE_JUMP_CURSOR:"@;
            let read = |s: Seq<char>|
                match text::parsed(text::trimmed(s), i32::MIN as int, i32::MAX as int) {
                    Some(v) => v,
                    None => 0int,
                };
            &&& reported(mark + a + seq![','] + b) == Some((read(a), read(b)))
            &&& reported(mark + a) is None
            &&& reported(mark + a + seq![','] + b + seq![','] + c) is None
            &&& !text::begins(line, mark) ==> reported(line) is None
        }),
{
    let mark = "MOUSE_JUMP_CURSOR:"@;
    let n = mark.len() as int;
    assert forall|i: int| 0 <= i < a.len() implies a[i] != ',' by {
        assert(a.contains(a[i]));
    }
    assert forall|i: int| 0 <= i < b.len() implies b[i] != ',' by {
        assert(b.contains(b[i]));
    }
    let (x, y, z) = (mark + a + seq![','] + b, mark + a, mark + a + seq![','] + b + seq![','] + c);
    assert(x.take(n) =~= mark && y.take(n) =~= mark && z.take(n) =~= mark);
    text::lemma_one_piece(a, ',');
    text::lemma_one_piece(b, ',');
    text::lemma_pieces_joined(a, ',', b);
    assert(x.skip(n) =~= a + seq![','] + b);
    assert(text::pieces(x.skip(n), ',') =~= seq![a, b]);
    assert(y.skip(n) =~= a);
    let d = b + seq![','] + c;
    text::lemma_pieces_joined(b, ',', c);
    text::lemma_pieces_joined(a, ',', d);
    assert(z.skip(n) =~= a + seq![','] + d);
    text::law_pieces(c, ',');
    assert(text::pieces(z.skip(n), ',').len() >= 3);
}

/// Of several reports the last counts, and lines that report nothing do not count.
pub proof fn law_last_report_counts(lines: Seq<Seq<char>>, line: Seq<char>)
    ensures
        last_reported(Seq::empty()) is None,
        reported(line) is Some ==> last_reported(lines.push(line)) == reported(line),
        reported(line) is None ==> last_reported(lines.push(line)) == last_reported(lines),
{
    assert(lines.push(line).drop_last() =~= lines);
}

/// The window is put at the position, and gets the size, that the script is made for, and is
/// put back whenever it is moved from that position.
pub proof fn law_positioning(x: int, y: int, w: int, h: int)
    ensures
        ({
            let (dx, dy) = (text::decimal_int(x), text::decimal_int(y));
            let target = "{x: "@ + dx + ", y: "@ + dy + ", width: "@ + text::decimal_int(w)
                + ", height: "@ + text::decimal_int(h) + "}"@;
            let moved = "win.frameGeometry.x !== "@ + dx + " || win.frameGeometry.y !== "@ + dy;
            positioning(x, y, w, h)
                == "workspace.windowAdded.connect(function(win) {\n    if (win.resourceClass === \"mouse-jump\" || win.resourceName === \"mouse-jump\") {\n        win.noBorder = true;\n        win.keepAbove = true;\n        var target = "@
                + target
                + ";\n        win.frameGeometry = target;\n        win.frameGeometryChanged.connect(function() {\n            if ("@
                + moved
                + ") {\n                win.frameGeometry = target;\n            }\n        });\n    }\n});"@
        }),
{
    reveal_strlit("{x: ");
    reveal_strlit("}");
    reveal_strlit("win.frameGeometry.x !== ");
    reveal_strlit(
        "workspace.windowAdded.connect(function(win) {\n    if (win.resourceClass === \"mouse-jump\" || win.resourceName === \"mouse-jump\") {\n        win.noBorder = true;\n        win.keepAbove = true;\n        var target = ",
    );
    reveal_strlit(
        "workspace.windowAdded.connect(function(win) {\n    if (win.resourceClass === \"mouse-jump\" || win.resourceName === \"mouse-jump\") {\n        win.noBorder = true;\n        win.keepAbove = true;\n        var target = {x: ",
    );
    reveal_strlit(
        ";\n        win.frameGeometry = target;\n        win.frameGeometryChanged.connect(function() {\n            if (",
    );
    reveal_strlit(
        "};\n        win.frameGeometry = target;\n        win.frameGeometryChanged.connect(function() {\n            if (win.frameGeometry.x !== ",
    );
    let (dx, dy) = (text::decimal_int(x), text::decimal_int(y));
    let head =
        "workspace.windowAdded.connect(function(win) {\n    if (win.resourceClass === \"mouse-jump\" || win.resourceName === \"mouse-jump\") {\n        win.noBorder = true;\n        win.keepAbove = true;\n        var target = "@;
    let middle =
        ";\n        win.frameGeometry = target;\n        win.frameGeometryChanged.connect(function() {\n            if ("@;
    assert(head + "{x: "@
        =~= "workspace.windowAdded.connect(function(win) {\n    if (win.resourceClass === \"mouse-jump\" || win.resourceName === \"mouse-jump\") {\n        win.noBorder = true;\n        win.keepAbove = true;\n        var target = {x: "@);
    assert("}"@ + middle + "win.frameGeometry.x !== "@
        =~= "};\n        win.frameGeometry = target;\n        win.frameGeometryChanged.connect(function() {\n            if (win.frameGeometry.x !== "@);
    let target = "{x: "@ + dx + ", y: "@ + dy + ", width: "@ + text::decimal_int(w) + ", height: "@
        + text::decimal_int(h) + "}"@;
    let moved = "win.frameGeometry.x !== "@ + dx + " || win.frameGeometry.y !== "@ + dy;
    let tail =
        ") {\n                win.frameGeometry = target;\n            }\n        });\n    }\n});"@;
    assert(positioning(x, y, w, h) =~= head + target + middle + moved + tail);
}

} // verus!
