//! The monitor layout that `kscreen-doctor --outputs` prints.
use crate::commands::{self, CommandError};
use crate::coords::Monitor;
use crate::text;
use vstd::prelude::*;

verus! {

/// Whether a character ends an escape sequence.
pub open spec fn is_letter(c: char) -> bool {
    'a' <= c <= 'z' || 'A' <= c <= 'Z'
}

/// The first index at or after `from` where a character is an ASCII letter; the length
/// if none is.
pub open spec fn letter_from(s: Seq<char>, from: int) -> int
    decreases s.len() - from,
{
    if from >= s.len() {
        s.len() as int
    } else if is_letter(s[from]) {
        from
    } else {
        letter_from(s, from + 1)
    }
}

/// The text without escape characters and, where a `[` follows one, without what comes
/// up to the next ASCII letter, and that letter.
pub open spec fn stripped(s: Seq<char>) -> Seq<char>
    decreases s.len(),
{
    if s.len() == 0 {
        Seq::empty()
    } else if s[0] != '\u{1b}' {
        seq![s[0]] + stripped(s.skip(1))
    } else if s.len() > 1 && s[1] == '[' {
        let k = letter_from(s, 2);
        if 2 <= k < s.len() {
            stripped(s.skip(k + 1))
        } else {
            Seq::empty()
        }
    } else {
        stripped(s.skip(1))
    }
}

proof fn lemma_letter_suffix(s: Seq<char>, start: int, from: int)
    requires
        0 <= start,
        0 <= from,
        start + from <= s.len(),
    ensures
        letter_from(s, start + from) == start + letter_from(s.skip(start), from),
        start + from <= letter_from(s, start + from) <= s.len(),
    decreases s.len() - start - from,
{
    if start + from < s.len() && !is_letter(s[start + from]) {
        lemma_letter_suffix(s, start, from + 1);
    }
}

/// Strip ANSI escape sequences from a string.
pub fn strip_ansi_codes(s: &str) -> (r: String)
    ensures
        r@ == stripped(s@),
{
    let v = text::chars_of(s);
    let mut r = String::new();
    let mut i: usize = 0;
    assert(v@.skip(0) =~= v@);
    while i < v.len()
        invariant
            v@ == s@,
            i <= v@.len(),
            r@ + stripped(v@.skip(i as int)) == stripped(v@),
        decreases v@.len() - i,
    {
        let ghost rest = v@.skip(i as int);
        let c: char = v[i];
        if c != '\u{1b}' {
            assert(rest.skip(1) =~= v@.skip(i + 1));
            assert(r@ + (seq![c] + stripped(rest.skip(1))) =~= r@.push(c) + stripped(rest.skip(1)));
            r.push(c);
            i = i + 1;
        } else if i + 1 < v.len() && v[i + 1] == '[' {
            let mut k: usize = i + 2;
            while k < v.len() && !(('a' <= v[k] && v[k] <= 'z') || ('A' <= v[k] && v[k] <= 'Z'))
                invariant
                    i + 2 <= k <= v@.len(),
                    letter_from(v@, i + 2) == letter_from(v@, k as int),
                decreases v@.len() - k,
            {
                k = k + 1;
            }
            proof {
                lemma_letter_suffix(v@, i as int, 2);
                assert(letter_from(rest, 2) == k - i);
                if k < v@.len() {
                    assert(rest.skip(k - i + 1) =~= v@.skip(k + 1));
                } else {
                    assert(v@.skip(k as int).len() == 0);
                    assert(stripped(rest) =~= stripped(v@.skip(k as int)));
                }
            }
            if k < v.len() {
                i = k + 1;
            } else {
                i = k;
            }
        } else {
            assert(rest.skip(1) =~= v@.skip(i + 1));
            i = i + 1;
        }
    }
    assert(r@ + stripped(v@.skip(i as int)) =~= r@);
    r
}

/// No escape character is left in a stripped text.
pub proof fn law_stripped_is_plain(s: Seq<char>)
    ensures
        !stripped(s).contains('\u{1b}'),
    decreases s.len(),
{
    if s.len() == 0 {
    } else if s[0] != '\u{1b}' {
        law_stripped_is_plain(s.skip(1));
        let t = stripped(s.skip(1));
        assert forall|i: int| 0 <= i < stripped(s).len() implies stripped(s)[i] != '\u{1b}' by {
            if i > 0 {
                assert(stripped(s)[i] == t[i - 1]);
                assert(t.contains(t[i - 1]));
            }
        }
    } else if s.len() > 1 && s[1] == '[' {
        let k = letter_from(s, 2);
        if 2 <= k < s.len() {
            law_stripped_is_plain(s.skip(k + 1));
        }
    } else {
        law_stripped_is_plain(s.skip(1));
    }
}

/// A text without escape characters is not changed; so stripping twice is stripping once.
pub proof fn law_plain_is_kept(s: Seq<char>)
    requires
        !s.contains('\u{1b}'),
    ensures
        stripped(s) == s,
    decreases s.len(),
{
    if s.len() > 0 {
        assert(s.contains(s[0]));
        assert forall|i: int| 0 <= i < s.skip(1).len() implies s.skip(1)[i] != '\u{1b}' by {
            assert(s.contains(s[i + 1]));
        }
        law_plain_is_kept(s.skip(1));
        assert(seq![s[0]] + s.skip(1) =~= s);
    } else {
        assert(stripped(s) =~= s);
    }
}

/// An escape sequence goes, and the text around it stays: what comes before it as it is, what
/// comes after it as it is stripped by itself.
pub proof fn law_escape_sequence_goes(
    a: Seq<char>,
    parameters: Seq<char>,
    letter: char,
    b: Seq<char>,
)
    requires
        !a.contains('\u{1b}'),
        forall|i: int| 0 <= i < parameters.len() ==> !is_letter(#[trigger] parameters[i]),
        is_letter(letter),
    ensures
        stripped(a + seq!['\u{1b}', '['] + parameters + seq![letter] + b) == a + stripped(b),
        !b.contains('\u{1b}') ==> stripped(
            a + seq!['\u{1b}', '['] + parameters + seq![letter] + b,
        ) == a + b,
    decreases a.len(),
{
    let s = a + seq!['\u{1b}', '['] + parameters + seq![letter] + b;
    if a.len() == 0 {
        let n = parameters.len() as int;
        assert(s[0] == '\u{1b}' && s[1] == '[');
        assert forall|i: int| 2 <= i < 2 + n implies !is_letter(#[trigger] s[i]) by {
            assert(s[i] == parameters[i - 2]);
        }
        assert(s[2 + n] == letter);
        lemma_letter_at(s, 2, 2 + n);
        assert(s.skip(2 + n + 1) =~= b);
        assert(a + stripped(b) =~= stripped(b));
    } else {
        let rest = a.skip(1);
        assert(a.contains(a[0]));
        assert forall|i: int| 0 <= i < rest.len() implies rest[i] != '\u{1b}' by {
            assert(a.contains(a[i + 1]));
        }
        law_escape_sequence_goes(rest, parameters, letter, b);
        assert(s[0] == a[0]);
        assert(s.skip(1) =~= rest + seq!['\u{1b}', '['] + parameters + seq![letter] + b);
        assert(seq![a[0]] + (rest + stripped(b)) =~= a + stripped(b));
    }
    if !b.contains('\u{1b}') {
        law_plain_is_kept(b);
    }
}

proof fn lemma_letter_at(s: Seq<char>, from: int, at: int)
    requires
        0 <= from <= at < s.len(),
        forall|i: int| from <= i < at ==> !is_letter(#[trigger] s[i]),
        is_letter(s[at]),
    ensures
        letter_from(s, from) == at,
    decreases at - from,
{
    if from < at {
        lemma_letter_at(s, from + 1, at);
    }
}

/// What a monitor is, in mathematical terms.
pub struct MonitorModel {
    pub name: Seq<char>,
    pub x: int,
    pub y: int,
    pub width: int,
    pub height: int,
    pub scale: Seq<char>,
}

impl View for Monitor {
    type V = MonitorModel;

    open spec fn view(&self) -> MonitorModel {
        MonitorModel {
            name: self.name@,
            x: self.x as int,
            y: self.y as int,
            width: self.width as int,
            height: self.height as int,
            scale: self.scale@,
        }
    }
}

/// What has been said of one output: a monitor, and whether it is enabled.
pub struct OutputModel {
    pub monitor: MonitorModel,
    pub enabled: bool,
}

/// An integer read from a text, zero where it cannot be read.
pub open spec fn parsed_or_zero(s: Seq<char>, lo: int, hi: int) -> int {
    match text::parsed(s, lo, hi) {
        Some(v) => v,
        None => 0,
    }
}

/// What the line that opens an output says of it: the third word is its name. An output
/// is not enabled, and has no size, until a later line says so.
pub open spec fn opened(line: Seq<char>) -> OutputModel {
    let words = text::words_of(line);
    OutputModel {
        monitor: MonitorModel {
            name: if words.len() > 2 {
                words[2]
            } else {
                "unknown"@
            },
            x: 0,
            y: 0,
            width: 0,
            height: 0,
            scale: "1.0"@,
        },
        enabled: false,
    }
}

/// What a position `X,Y` says.
pub open spec fn at_position(m: MonitorModel, word: Seq<char>) -> MonitorModel {
    let p = text::pieces(word, ',');
    if p.len() == 2 {
        MonitorModel {
            x: parsed_or_zero(p[0], i32::MIN as int, i32::MAX as int),
            y: parsed_or_zero(p[1], i32::MIN as int, i32::MAX as int),
            ..m
        }
    } else {
        m
    }
}

/// What a size `WxH` says.
pub open spec fn of_size(m: MonitorModel, word: Seq<char>) -> MonitorModel {
    let p = text::pieces(word, 'x');
    if p.len() == 2 {
        MonitorModel {
            width: parsed_or_zero(p[0], 0, u32::MAX as int),
            height: parsed_or_zero(p[1], 0, u32::MAX as int),
            ..m
        }
    } else {
        m
    }
}

/// What the words of a geometry say: the first is a position, the second a size.
pub open spec fn with_geometry(m: MonitorModel, words: Seq<Seq<char>>) -> MonitorModel {
    let placed = if words.len() > 0 {
        at_position(m, words[0])
    } else {
        m
    };
    if words.len() > 1 {
        of_size(placed, words[1])
    } else {
        placed
    }
}

/// The scale factor that a text gives: itself where it writes down a number, else one.
pub open spec fn scale_of(s: Seq<char>) -> Seq<char> {
    if text::is_float(s) {
        s
    } else {
        "1.0"@
    }
}

/// What a later line says of an output.
pub open spec fn told(o: OutputModel, line: Seq<char>) -> OutputModel {
    if line == "enabled"@ {
        OutputModel { enabled: true, ..o }
    } else if line == "disabled"@ {
        OutputModel { enabled: false, ..o }
    } else if text::begins(line, "Geometry:"@) {
        let words = text::words_of(text::trimmed(line.skip("Geometry:"@.len() as int)));
        OutputModel { monitor: with_geometry(o.monitor, words), ..o }
    } else if text::begins(line, "Scale:"@) {
        let scale = scale_of(text::trimmed(line.skip("Scale:"@.len() as int)));
        OutputModel { monitor: MonitorModel { scale, ..o.monitor }, ..o }
    } else {
        o
    }
}

/// The outputs that some lines describe. A line that begins with `Output:` opens one;
/// every other line is about the output that was opened last.
pub open spec fn described(lines: Seq<Seq<char>>) -> Seq<OutputModel>
    decreases lines.len(),
{
    if lines.len() == 0 {
        Seq::empty()
    } else {
        let before = described(lines.drop_last());
        let line = text::trimmed(lines.last());
        if text::begins(line, "Output:"@) {
            before.push(opened(line))
        } else if before.len() > 0 {
            before.drop_last().push(told(before.last(), line))
        } else {
            before
        }
    }
}

/// Whether an output is one to show: it is enabled, and has a width.
pub open spec fn usable(o: OutputModel) -> bool {
    o.enabled && o.monitor.width > 0
}

/// The monitors of the outputs that are to be shown, in their order.
pub open spec fn monitors_of(outputs: Seq<OutputModel>) -> Seq<MonitorModel>
    decreases outputs.len(),
{
    if outputs.len() == 0 {
        Seq::empty()
    } else {
        let before = monitors_of(outputs.drop_last());
        if usable(outputs.last()) {
            before.push(outputs.last().monitor)
        } else {
            before
        }
    }
}

/// Why no layout could be read.
#[derive(Debug)]
pub enum LayoutError {
    /// No output is enabled and has a width.
    NoMonitors,
    /// The command that prints the layout failed.
    Command(CommandError),
}

impl LayoutError {
    pub fn message(&self) -> (s: String)
        ensures
            s@ == match self {
                LayoutError::NoMonitors => "No monitors found in kscreen-doctor output"@,
                LayoutError::Command(e) => e.text(),
            },
    {
        match self {
            LayoutError::NoMonitors => "No monitors found in kscreen-doctor output".to_owned(),
            LayoutError::Command(e) => e.message(),
        }
    }
}

/// An output as it is being read.
struct Output {
    monitor: Monitor,
    enabled: bool,
}

impl View for Output {
    type V = OutputModel;

    closed spec fn view(&self) -> OutputModel {
        OutputModel { monitor: self.monitor@, enabled: self.enabled }
    }
}

/// An integer read from a text, zero where it cannot be read.
pub fn i32_or_zero(s: &[char]) -> (v: i32)
    ensures
        v == parsed_or_zero(s@, i32::MIN as int, i32::MAX as int),
{
    match text::parse_i32(s) {
        Some(v) => v,
        None => 0,
    }
}

fn u32_or_zero(s: &[char]) -> (v: u32)
    ensures
        v == parsed_or_zero(s@, 0, u32::MAX as int),
{
    match text::parse_unsigned(s, 0xffff_ffff) {
        Some(v) => v as u32,
        None => 0,
    }
}

fn open_output(line: &[char]) -> (o: Output)
    ensures
        o@ == opened(line@),
{
    let words = text::words(line);
    let name: String = if words.len() > 2 {
        text::string_of(words[2])
    } else {
        "unknown".to_owned()
    };
    Output {
        monitor: Monitor { name, x: 0, y: 0, width: 0, height: 0, scale: "1.0".to_owned() },
        enabled: false,
    }
}

fn tell(o: &mut Output, line: &[char])
    ensures
        final(o)@ == told(old(o)@, line@),
{
    if text::same(line, "enabled") {
        o.enabled = true;
    } else if text::same(line, "disabled") {
        o.enabled = false;
    } else if let Some(rest) = text::strip_prefix(line, "Geometry:") {
        let words = text::words(text::trim(rest));
        if words.len() > 0 {
            let p = text::split(words[0], ',');
            if p.len() == 2 {
                o.monitor.x = i32_or_zero(p[0]);
                o.monitor.y = i32_or_zero(p[1]);
            }
        }
        if words.len() > 1 {
            let p = text::split(words[1], 'x');
            if p.len() == 2 {
                o.monitor.width = u32_or_zero(p[0]);
                o.monitor.height = u32_or_zero(p[1]);
            }
        }
    } else if let Some(rest) = text::strip_prefix(line, "Scale:") {
        let scale = text::trim(rest);
        o.monitor.scale = if text::parses_as_float(scale) {
            text::string_of(scale)
        } else {
            "1.0".to_owned()
        };
    }
}

/// The models of monitors.
pub open spec fn models(ms: Seq<Monitor>) -> Seq<MonitorModel> {
    Seq::new(ms.len(), |i: int| ms[i]@)
}

spec fn outputs_view(os: Seq<Output>) -> Seq<OutputModel> {
    Seq::new(os.len(), |i: int| os[i]@)
}

/// Parse kscreen-doctor output format:
/// Output: 1 DP-1 <uuid>
///         enabled
///         connected
///         Geometry: 0,0 3840x2160
///         Scale: 1.5
///         ...
pub fn parse_kscreen_doctor_output(output: &str) -> (r: Result<Vec<Monitor>, LayoutError>)
    ensures
        ({
            let found = monitors_of(described(text::lines_of(output@)));
            match r {
                Ok(ms) => found.len() > 0 && models(ms@) == found,
                Err(e) => found.len() == 0 && e is NoMonitors,
            }
        }),
{
    let chars = text::chars_of(output);
    let lines = text::lines(chars.as_slice());
    let ghost all = text::lines_of(output@);
    let mut outputs: Vec<Output> = Vec::new();
    let mut i: usize = 0;
    assert(all.take(0) =~= Seq::<Seq<char>>::empty());
    assert(outputs_view(outputs@) =~= described(all.take(0)));
    while i < lines.len()
        invariant
            i <= lines@.len(),
            lines@.len() == all.len(),
            forall|k: int| 0 <= k < lines@.len() ==> (#[trigger] lines@[k])@ == all[k],
            outputs_view(outputs@) == described(all.take(i as int)),
        decreases lines@.len() - i,
    {
        let line = text::trim(lines[i]);
        let ghost before = outputs@;
        assert(all.take(i + 1).drop_last() =~= all.take(i as int));
        assert(all.take(i + 1).last() == all[i as int]);
        if text::strip_prefix(line, "Output:").is_some() {
            outputs.push(open_output(line));
            assert(outputs_view(outputs@) =~= outputs_view(before).push(opened(line@)));
        } else {
            match outputs.pop() {
                Some(mut o) => {
                    let ghost last = o@;
                    tell(&mut o, line);
                    outputs.push(o);
                    assert(outputs_view(outputs@) =~= outputs_view(before).drop_last().push(
                        told(last, line@),
                    ));
                    assert(outputs_view(before).last() == last);
                },
                None => {},
            }
        }
        i = i + 1;
    }
    assert(all.take(i as int) =~= all);
    let ghost os = described(all);
    let mut monitors: Vec<Monitor> = Vec::new();
    let mut k: usize = 0;
    assert(os.take(0) =~= Seq::<OutputModel>::empty());
    assert(models(monitors@) =~= monitors_of(os.take(0)));
    let n: usize = outputs.len();
    while k < n
        invariant
            k <= n == outputs@.len(),
            outputs_view(outputs@) == os,
            models(monitors@) == monitors_of(os.take(k as int)),
        decreases n - k,
    {
        let ghost before = monitors@;
        assert(os.take(k + 1).drop_last() =~= os.take(k as int));
        assert(os.take(k + 1).last() == os[k as int]);
        let o = &outputs[k];
        if o.enabled && o.monitor.width > 0 {
            let m = copy_monitor(&o.monitor);
            monitors.push(m);
            assert(models(monitors@) =~= models(before).push(o.monitor@));
        }
        k = k + 1;
    }
    assert(os.take(k as int) =~= os);
    if monitors.len() == 0 {
        Err(LayoutError::NoMonitors)
    } else {
        Ok(monitors)
    }
}

/// Reads the layout from what `kscreen-doctor --outputs` printed, if it succeeded.
pub fn read_layout(success: bool, stdout: &[u8], stderr: &[u8]) -> (r: Result<
    Vec<Monitor>,
    LayoutError,
>)
    ensures
        ({
            let clean = stripped(text::lossy_text(stdout@));
            let found = monitors_of(described(text::lines_of(clean)));
            match r {
                Ok(ms) => success && found.len() > 0 && models(ms@) == found,
                Err(LayoutError::NoMonitors) => success && found.len() == 0,
                Err(LayoutError::Command(e)) => !success && e.program@ == "kscreen-doctor"@
                    && e.stderr@ == text::lossy_text(stderr@),
            }
        }),
{
    match commands::check("kscreen-doctor", success, stderr) {
        Err(e) => Err(LayoutError::Command(e)),
        Ok(()) => {
            // Strip any remaining ANSI escape codes
            let clean = strip_ansi_codes(text::lossy(stdout).as_str());
            parse_kscreen_doctor_output(clean.as_str())
        },
    }
}

fn copy_monitor(m: &Monitor) -> (r: Monitor)
    ensures
        r@ == m@,
{
    Monitor {
        name: m.name.clone(),
        x: m.x,
        y: m.y,
        width: m.width,
        height: m.height,
        scale: m.scale.clone(),
    }
}

/// Every monitor that is found belongs to an output that was described as enabled, and
/// has a width.
pub proof fn law_only_usable_monitors(outputs: Seq<OutputModel>, i: int)
    requires
        0 <= i < monitors_of(outputs).len(),
    ensures
        monitors_of(outputs)[i].width > 0,
        exists|k: int|
            0 <= k < outputs.len() && usable(#[trigger] outputs[k]) && outputs[k].monitor
                == monitors_of(outputs)[i],
    decreases outputs.len(),
{
    let before = outputs.drop_last();
    if usable(outputs.last()) && i == monitors_of(before).len() {
        assert(usable(outputs[outputs.len() - 1]));
    } else {
        law_only_usable_monitors(before, i);
        let k = choose|k: int|
            0 <= k < before.len() && usable(#[trigger] before[k]) && before[k].monitor
                == monitors_of(before)[i];
        assert(outputs[k] == before[k]);
    }
}

/// The scale factor of every output is a text that writes down a number, whatever the
/// lines say.
pub proof fn law_scale_is_number(lines: Seq<Seq<char>>, i: int)
    requires
        0 <= i < described(lines).len(),
    ensures
        text::is_float(described(lines)[i].monitor.scale),
    decreases lines.len(),
{
    reveal_strlit("1.0");
    reveal_strlit("1");
    reveal_strlit("0");
    assert("1.0"@ =~= "1"@ + seq!['.'] + "0"@);
    text::lemma_is_float("1"@, "0"@);
    let before = lines.drop_last();
    if i < described(before).len() {
        law_scale_is_number(before, i);
    }
}

/// The line that gives a position and a size.
pub open spec fn geometry_line(x: int, y: int, w: int, h: int) -> Seq<char> {
    "Geometry: "@ + text::decimal_int(x) + seq![','] + text::decimal_int(y) + seq![' ']
        + text::decimal_int(w) + seq!['x'] + text::decimal_int(h)
}

/// A position and a size that are written down are read back.
pub proof fn law_geometry_read_back(o: OutputModel, x: int, y: int, w: int, h: int)
    requires
        i32::MIN <= x <= i32::MAX,
        i32::MIN <= y <= i32::MAX,
        0 <= w <= u32::MAX,
        0 <= h <= u32::MAX,
    ensures
        text::trimmed(geometry_line(x, y, w, h)) == geometry_line(x, y, w, h),
        told(o, geometry_line(x, y, w, h)) == (OutputModel {
            monitor: MonitorModel { x, y, width: w, height: h, ..o.monitor },
            ..o
        }),
{
    reveal_strlit("Geometry: ");
    reveal_strlit("Geometry:");
    reveal_strlit("enabled");
    reveal_strlit("disabled");
    let (dx, dy, dw, dh) = (
        text::decimal_int(x),
        text::decimal_int(y),
        text::decimal_int(w),
        text::decimal_int(h),
    );
    text::lemma_decimal_chars(x);
    text::lemma_decimal_chars(y);
    text::lemma_decimal_chars(w);
    text::lemma_decimal_chars(h);
    let line = geometry_line(x, y, w, h);
    let position = dx + seq![','] + dy;
    let size = dw + seq!['x'] + dh;
    let body = position + seq![' '] + size;
    assert(line[0] == 'G');
    assert(line.last() == dh.last());
    text::lemma_trimmed_already(line);
    assert(line.take("Geometry:"@.len() as int) =~= "Geometry:"@);
    assert(line.skip("Geometry:"@.len() as int) =~= seq![' '] + body);
    text::lemma_trimmed_after_space(body);
    assert(body[0] == dx[0]);
    assert(body.last() == dh.last());
    text::lemma_trimmed_already(body);
    assert forall|i: int| 0 <= i < position.len() implies !text::is_space(
        #[trigger] position[i],
    ) by {
        if i > dx.len() {
            assert(position[i] == dy[i - dx.len() - 1]);
        } else if i < dx.len() {
            assert(position[i] == dx[i]);
        }
    }
    assert forall|i: int| 0 <= i < size.len() implies !text::is_space(#[trigger] size[i]) by {
        if i > dw.len() {
            assert(size[i] == dh[i - dw.len() - 1]);
        } else if i < dw.len() {
            assert(size[i] == dw[i]);
        }
    }
    text::lemma_words_joined(position, size);
    text::lemma_one_word(size);
    let words = text::words_of(body);
    assert(words =~= seq![position, size]);
    text::lemma_pieces_joined(dx, ',', dy);
    text::lemma_one_piece(dy, ',');
    assert(text::pieces(position, ',') =~= seq![dx, dy]);
    text::lemma_pieces_joined(dw, 'x', dh);
    text::lemma_one_piece(dh, 'x');
    assert(text::pieces(size, 'x') =~= seq![dw, dh]);
    text::law_decimal_read_back(x, i32::MIN as int, i32::MAX as int);
    text::law_decimal_read_back(y, i32::MIN as int, i32::MAX as int);
    text::law_decimal_read_back(w, 0, u32::MAX as int);
    text::law_decimal_read_back(h, 0, u32::MAX as int);
}

/// The line that opens an output.
pub open spec fn output_line(number: Seq<char>, name: Seq<char>) -> Seq<char> {
    "Output: "@ + number + seq![' '] + name
}

/// Describing one more enabled output, with a position and a size, adds its monitor
/// after those described before.
pub proof fn law_layout_read_back(
    lines: Seq<Seq<char>>,
    number: Seq<char>,
    name: Seq<char>,
    x: int,
    y: int,
    w: int,
    h: int,
)
    requires
        text::is_word(number),
        text::is_word(name),
        i32::MIN <= x <= i32::MAX,
        i32::MIN <= y <= i32::MAX,
        0 < w <= u32::MAX,
        0 <= h <= u32::MAX,
    ensures
        monitors_of(
            described(
                lines.push(output_line(number, name)).push("enabled"@).push(
                    geometry_line(x, y, w, h),
                ),
            ),
        ) == monitors_of(described(lines)).push(
            MonitorModel { name, x, y, width: w, height: h, scale: "1.0"@ },
        ),
{
    let before = described(lines);
    lemma_described(lines, number, name, x, y, w, h);
    let o = OutputModel {
        monitor: MonitorModel { name, x, y, width: w, height: h, scale: "1.0"@ },
        enabled: true,
    };
    assert(before.push(o).drop_last() =~= before);
}

/// What the lines of one more enabled output, with a position and a size, describe.
proof fn lemma_described(
    lines: Seq<Seq<char>>,
    number: Seq<char>,
    name: Seq<char>,
    x: int,
    y: int,
    w: int,
    h: int,
)
    requires
        text::is_word(number),
        text::is_word(name),
        i32::MIN <= x <= i32::MAX,
        i32::MIN <= y <= i32::MAX,
        0 < w <= u32::MAX,
        0 <= h <= u32::MAX,
    ensures
        described(
            lines.push(output_line(number, name)).push("enabled"@).push(
                geometry_line(x, y, w, h),
            ),
        ) == described(lines).push(
            OutputModel {
                monitor: MonitorModel { name, x, y, width: w, height: h, scale: "1.0"@ },
                enabled: true,
            },
        ),
{
    reveal_strlit("Output: ");
    reveal_strlit("Output:");
    reveal_strlit("enabled");
    reveal_strlit("Geometry: ");
    let first = output_line(number, name);
    let geometry = geometry_line(x, y, w, h);
    let l1 = lines.push(first);
    let l2 = l1.push("enabled"@);
    let l3 = l2.push(geometry);
    assert(l1.drop_last() =~= lines);
    assert(l2.drop_last() =~= l1);
    assert(l3.drop_last() =~= l2);
    let before = described(lines);
    // The first line opens the output.
    assert(first[0] == 'O' && first.last() == name.last());
    text::lemma_trimmed_already(first);
    assert(first.take("Output:"@.len() as int) =~= "Output:"@);
    let tag = "Output:"@;
    assert(text::is_word(tag));
    assert(first =~= tag + seq![' '] + (number + seq![' '] + name));
    text::lemma_words_joined(tag, number + seq![' '] + name);
    text::lemma_words_joined(number, name);
    text::lemma_one_word(name);
    assert(text::words_of(first) =~= seq![tag, number, name]);
    let o1 = opened(first);
    assert(described(l1) == before.push(o1));
    // The second enables it.
    assert("enabled"@[0] == 'e');
    text::lemma_trimmed_already("enabled"@);
    assert(!text::begins("enabled"@, tag)) by {
        if text::begins("enabled"@, tag) {
            assert("enabled"@.take(tag.len() as int)[0] == tag[0]);
        }
    }
    let o2 = told(o1, "enabled"@);
    assert(before.push(o1).drop_last() =~= before);
    assert(described(l2) == before.push(o2));
    // The third places it.
    law_geometry_read_back(o2, x, y, w, h);
    assert(geometry[0] == 'G');
    assert(!text::begins(geometry, tag)) by {
        if text::begins(geometry, tag) {
            assert(geometry.take(tag.len() as int)[0] == tag[0]);
        }
    }
    let o3 = told(o2, geometry);
    assert(before.push(o2).drop_last() =~= before);
    assert(described(l3) == before.push(o3));
}

/// The line that gives a scale factor.
pub open spec fn scale_line(scale: Seq<char>) -> Seq<char> {
    "Scale: "@ + scale
}

/// A layout as it is printed, line by line: every output is enabled, and has a position, a
/// size and a scale factor.
pub open spec fn printed(ms: Seq<MonitorModel>) -> Seq<Seq<char>>
    decreases ms.len(),
{
    if ms.len() == 0 {
        Seq::empty()
    } else {
        let m = ms.last();
        printed(ms.drop_last()).push(output_line(text::decimal(ms.len()), m.name)).push(
            "enabled"@,
        ).push(geometry_line(m.x, m.y, m.width, m.height)).push(scale_line(m.scale))
    }
}

/// Whether a monitor can be printed and read back: it has a width, its numbers are in the
/// range of what is read, its name is a word, and its scale factor one that writes down a
/// number.
pub open spec fn printable(m: MonitorModel) -> bool {
    &&& text::is_word(m.name)
    &&& text::is_word(m.scale) && text::is_float(m.scale)
    &&& i32::MIN <= m.x <= i32::MAX
    &&& i32::MIN <= m.y <= i32::MAX
    &&& 0 < m.width <= u32::MAX
    &&& 0 <= m.height <= u32::MAX
}

/// A layout that is printed is read back: the same monitors, in the same order.
pub proof fn law_printed_layout_read_back(ms: Seq<MonitorModel>)
    requires
        forall|i: int| 0 <= i < ms.len() ==> printable(#[trigger] ms[i]),
    ensures
        monitors_of(described(text::lines_of(text::joined(printed(ms))))) == ms,
{
    lemma_printed(ms);
    text::law_lines_read_back(printed(ms));
}

proof fn lemma_printed(ms: Seq<MonitorModel>)
    requires
        forall|i: int| 0 <= i < ms.len() ==> printable(#[trigger] ms[i]),
    ensures
        monitors_of(described(printed(ms))) == ms,
        forall|i: int|
            0 <= i < printed(ms).len() ==> text::is_line(#[trigger] printed(ms)[i]),
    decreases ms.len(),
{
    if ms.len() == 0 {
        assert(monitors_of(described(printed(ms))) =~= ms);
    } else {
        let m = ms.last();
        let rest = ms.drop_last();
        assert(printable(ms[ms.len() - 1]));
        assert forall|i: int| 0 <= i < rest.len() implies printable(#[trigger] rest[i]) by {
            assert(printable(ms[i]));
        }
        lemma_printed(rest);
        let number = text::decimal(ms.len());
        text::lemma_decimal_chars(ms.len() as int);
        assert(number == text::decimal_int(ms.len() as int));
        let l0 = printed(rest);
        let l3 = l0.push(output_line(number, m.name)).push("enabled"@).push(
            geometry_line(m.x, m.y, m.width, m.height),
        );
        let scale = scale_line(m.scale);
        lemma_described(l0, number, m.name, m.x, m.y, m.width, m.height);
        lemma_scale(described(l0), l3, m, scale);
        lemma_printed_lines(m, number);
        assert forall|i: int| 0 <= i < printed(ms).len() implies text::is_line(
            #[trigger] printed(ms)[i],
        ) by {
            if i < l0.len() {
                assert(printed(ms)[i] == l0[i]);
            }
        }
    }
}

/// What the scale line adds to what the lines before it said.
proof fn lemma_scale(
    before: Seq<OutputModel>,
    lines: Seq<Seq<char>>,
    m: MonitorModel,
    scale: Seq<char>,
)
    requires
        text::is_word(m.scale),
        text::is_float(m.scale),
        m.width > 0,
        scale == scale_line(m.scale),
        described(lines) == before.push(
            OutputModel { monitor: MonitorModel { scale: "1.0"@, ..m }, enabled: true },
        ),
    ensures
        monitors_of(described(lines.push(scale))) == monitors_of(before).push(m),
{
    reveal_strlit("Output:");
    reveal_strlit("enabled");
    reveal_strlit("disabled");
    reveal_strlit("Geometry:");
    reveal_strlit("Scale:");
    reveal_strlit("Scale: ");
    let o = described(lines).last();
    assert(lines.push(scale).drop_last() =~= lines);
    assert(scale[0] == 'S');
    assert(scale.last() == m.scale.last());
    text::lemma_trimmed_already(scale);
    assert(!text::begins(scale, "Output:"@)) by {
        if text::begins(scale, "Output:"@) {
            assert(scale.take("Output:"@.len() as int)[0] == "Output:"@[0]);
        }
    }
    assert(!text::begins(scale, "Geometry:"@)) by {
        if text::begins(scale, "Geometry:"@) {
            assert(scale.take("Geometry:"@.len() as int)[0] == "Geometry:"@[0]);
        }
    }
    assert(scale.take("Scale:"@.len() as int) =~= "Scale:"@);
    assert(scale.skip("Scale:"@.len() as int) =~= seq![' '] + m.scale);
    text::lemma_trimmed_after_space(m.scale);
    text::lemma_trimmed_already(m.scale);
    let last = OutputModel { monitor: m, enabled: true };
    assert(told(o, scale) == last);
    assert(described(lines).drop_last() =~= before);
    assert(before.push(last).drop_last() =~= before);
}

/// What is printed of a monitor are lines.
proof fn lemma_printed_lines(m: MonitorModel, number: Seq<char>)
    requires
        printable(m),
        text::is_word(number),
    ensures
        text::is_line(output_line(number, m.name)),
        text::is_line("enabled"@),
        text::is_line(geometry_line(m.x, m.y, m.width, m.height)),
        text::is_line(scale_line(m.scale)),
{
    reveal_strlit("Output: ");
    reveal_strlit("enabled");
    reveal_strlit("Geometry: ");
    reveal_strlit("Scale: ");
    let first = output_line(number, m.name);
    assert forall|i: int| 0 <= i < first.len() implies first[i] != '\n' by {
        if 8 <= i < 8 + number.len() {
            assert(first[i] == number[i - 8]);
        } else if i > 8 + number.len() {
            assert(first[i] == m.name[i - 9 - number.len()]);
        }
    }
    assert(first.last() == m.name.last());
    let scale = scale_line(m.scale);
    assert forall|i: int| 0 <= i < scale.len() implies scale[i] != '\n' by {
        if i >= 7 {
            assert(scale[i] == m.scale[i - 7]);
        }
    }
    assert(scale.last() == m.scale.last());
    let (dx, dy, dw, dh) = (
        text::decimal_int(m.x),
        text::decimal_int(m.y),
        text::decimal_int(m.width),
        text::decimal_int(m.height),
    );
    text::lemma_decimal_chars(m.x);
    text::lemma_decimal_chars(m.y);
    text::lemma_decimal_chars(m.width);
    text::lemma_decimal_chars(m.height);
    let g1 = "Geometry: "@ + dx + seq![','];
    let g2 = g1 + dy + seq![' '];
    let g3 = g2 + dw + seq!['x'];
    let line = geometry_line(m.x, m.y, m.width, m.height);
    assert(line =~= g3 + dh);
    assert forall|i: int| 0 <= i < g1.len() implies g1[i] != '\n' by {
        if 10 <= i < 10 + dx.len() {
            assert(g1[i] == dx[i - 10]);
        }
    }
    assert forall|i: int| 0 <= i < g2.len() implies g2[i] != '\n' by {
        if i < g1.len() {
            assert(g2[i] == g1[i]);
        } else if i < g1.len() + dy.len() {
            assert(g2[i] == dy[i - g1.len()]);
        }
    }
    assert forall|i: int| 0 <= i < g3.len() implies g3[i] != '\n' by {
        if i < g2.len() {
            assert(g3[i] == g2[i]);
        } else if i < g2.len() + dw.len() {
            assert(g3[i] == dw[i - g2.len()]);
        }
    }
    assert forall|i: int| 0 <= i < line.len() implies line[i] != '\n' by {
        if i < g3.len() {
            assert(line[i] == g3[i]);
        } else {
            assert(line[i] == dh[i - g3.len()]);
        }
    }
    assert(line.last() == dh.last());
}

/// Whether lines begin with one that opens an output, or there are none.
pub open spec fn begins_with_output(lines: Seq<Seq<char>>) -> bool {
    lines.len() > 0 ==> text::begins(text::trimmed(lines[0]), "Output:"@)
}

/// A layout with another after it gives the monitors of both, those of the first one first.
pub proof fn law_layouts_joined(a: Seq<char>, b: Seq<char>)
    requires
        a.len() > 0 ==> a.last() == '\n',
        begins_with_output(text::lines_of(b)),
    ensures
        monitors_of(described(text::lines_of(a + b))) == monitors_of(described(text::lines_of(a)))
            + monitors_of(described(text::lines_of(b))),
{
    text::law_lines_appended(a, b);
    lemma_described_appended(text::lines_of(a), text::lines_of(b));
    lemma_monitors_appended(described(text::lines_of(a)), described(text::lines_of(b)));
}

proof fn lemma_described_appended(a: Seq<Seq<char>>, b: Seq<Seq<char>>)
    requires
        begins_with_output(b),
    ensures
        described(a + b) == described(a) + described(b),
        b.len() > 0 ==> described(b).len() > 0,
    decreases b.len(),
{
    if b.len() == 0 {
        assert(a + b =~= a);
        assert(described(a) + described(b) =~= described(a));
    } else {
        let before = b.drop_last();
        lemma_described_appended(a, before);
        assert((a + b).drop_last() =~= a + before);
        assert((a + b).last() == b.last());
        let (x, y) = (described(a), described(before));
        let line = text::trimmed(b.last());
        if text::begins(line, "Output:"@) {
            assert((x + y).push(opened(line)) =~= x + y.push(opened(line)));
        } else {
            assert(before.len() > 0);
            assert((x + y).last() == y.last());
            let o = told(y.last(), line);
            assert((x + y).drop_last().push(o) =~= x + y.drop_last().push(o));
        }
    }
}

proof fn lemma_monitors_appended(a: Seq<OutputModel>, b: Seq<OutputModel>)
    ensures
        monitors_of(a + b) == monitors_of(a) + monitors_of(b),
    decreases b.len(),
{
    if b.len() == 0 {
        assert(a + b =~= a);
        assert(monitors_of(a) + monitors_of(b) =~= monitors_of(a));
    } else {
        lemma_monitors_appended(a, b.drop_last());
        assert((a + b).drop_last() =~= a + b.drop_last());
        assert((a + b).last() == b.last());
        let (x, y) = (monitors_of(a), monitors_of(b.drop_last()));
        let m = b.last().monitor;
        assert((x + y).push(m) =~= x + y.push(m));
    }
}

/// How far a line is indented does not matter.
pub proof fn law_indentation_does_not_matter(pads: Seq<Seq<char>>, lines: Seq<Seq<char>>)
    requires
        pads.len() == lines.len(),
        forall|i: int, k: int|
            0 <= i < pads.len() && 0 <= k < pads[i].len() ==> text::is_space(
                #[trigger] pads[i][k],
            ),
    ensures
        described(Seq::new(lines.len(), |i: int| pads[i] + lines[i])) == described(lines),
    decreases lines.len(),
{
    let all = Seq::new(lines.len(), |i: int| pads[i] + lines[i]);
    if lines.len() == 0 {
        assert(all =~= lines);
    } else {
        let (p, l) = (pads.drop_last(), lines.drop_last());
        assert forall|i: int, k: int|
            0 <= i < p.len() && 0 <= k < p[i].len() implies text::is_space(#[trigger] p[i][k]) by {
            assert(text::is_space(pads[i][k]));
        }
        law_indentation_does_not_matter(p, l);
        assert(all.drop_last() =~= Seq::new(l.len(), |i: int| p[i] + l[i]));
        let n = lines.len() - 1;
        assert forall|k: int| 0 <= k < pads[n].len() implies text::is_space(
            #[trigger] pads[n][k],
        ) by {
            assert(text::is_space(pads[n][k]));
        }
        text::lemma_trimmed_after_spaces(pads[n], lines[n]);
    }
}

/// An escape sequence ends with a letter of ASCII.
pub proof fn law_letters(c: char)
    ensures
        is_letter(c) == ('a' <= c <= 'z' || 'A' <= c <= 'Z'),
{
}

/// An escape character that no `[` follows goes alone, and an escape sequence that is not ended
/// goes with all that comes after it.
pub proof fn law_other_escapes(a: Seq<char>, b: Seq<char>)
    requires
        !a.contains('\u{1b}'),
    ensures
        b.len() == 0 || b[0] != '[' ==> stripped(a + seq!['\u{1b}'] + b) == a + stripped(b),
        b.len() > 0 && b[0] == '[' && (forall|i: int|
            1 <= i < b.len() ==> !('a' <= #[trigger] b[i] <= 'z' || 'A' <= b[i] <= 'Z'))
            ==> stripped(a + seq!['\u{1b}'] + b) == a,
    decreases a.len(),
{
    let s = a + seq!['\u{1b}'] + b;
    if a.len() == 0 {
        assert(s[0] == '\u{1b}');
        assert(s.skip(1) =~= b);
        assert(a + stripped(b) =~= stripped(b));
        if b.len() > 0 {
            assert(s[1] == b[0]);
            if b[0] == '[' && (forall|i: int|
                1 <= i < b.len() ==> !('a' <= #[trigger] b[i] <= 'z' || 'A' <= b[i] <= 'Z')) {
                assert forall|i: int| 2 <= i < s.len() implies !is_letter(#[trigger] s[i]) by {
                    assert(s[i] == b[i - 1]);
                }
                lemma_no_letter(s, 2);
                assert(stripped(s) =~= a);
            }
        }
    } else {
        let rest = a.skip(1);
        assert(a.contains(a[0]));
        assert forall|i: int| 0 <= i < rest.len() implies rest[i] != '\u{1b}' by {
            assert(a.contains(a[i + 1]));
        }
        law_other_escapes(rest, b);
        assert(s[0] == a[0]);
        assert(s.skip(1) =~= rest + seq!['\u{1b}'] + b);
        assert(seq![a[0]] + (rest + stripped(b)) =~= a + stripped(b));
        assert(seq![a[0]] + rest =~= a);
    }
}

proof fn lemma_no_letter(s: Seq<char>, from: int)
    requires
        0 <= from <= s.len(),
        forall|i: int| from <= i < s.len() ==> !is_letter(#[trigger] s[i]),
    ensures
        letter_from(s, from) == s.len(),
    decreases s.len() - from,
{
    if from < s.len() {
        lemma_no_letter(s, from + 1);
    }
}

/// Whether a line is about something else than what makes a monitor: it opens no output, gives
/// no geometry and no scale factor, and neither enables nor disables anything.
pub open spec fn is_other_line(line: Seq<char>) -> bool {
    let t = text::trimmed(line);
    &&& t != "enabled"@
    &&& t != "disabled"@
    &&& !text::begins(t, "Output:"@)
    &&& !text::begins(t, "Geometry:"@)
    &&& !text::begins(t, "Scale:"@)
}

/// A line about something else (such as modes, a priority or a rotation) changes nothing of
/// what is known of an output, wherever among the lines it stands.
pub proof fn law_other_lines_say_nothing(
    o: OutputModel,
    before: Seq<Seq<char>>,
    line: Seq<char>,
    after: Seq<Seq<char>>,
)
    requires
        is_other_line(line),
    ensures
        told(o, text::trimmed(line)) == o,
        described(before + seq![line] + after) == described(before + after),
    decreases after.len(),
{
    if after.len() == 0 {
        let all = before + seq![line] + after;
        assert(all.drop_last() =~= before);
        assert(all.last() == line);
        assert(before + after =~= before);
        let d = described(before);
        if d.len() > 0 {
            assert(d.drop_last().push(d.last()) =~= d);
        }
    } else {
        law_other_lines_say_nothing(o, before, line, after.drop_last());
        let (x, y) = (before + seq![line] + after, before + after);
        assert(x.drop_last() =~= before + seq![line] + after.drop_last());
        assert(y.drop_last() =~= before + after.drop_last());
        assert(x.last() == y.last());
    }
}

/// Lines without those about something else.
pub open spec fn without_others(lines: Seq<Seq<char>>) -> Seq<Seq<char>>
    decreases lines.len(),
{
    if lines.len() == 0 {
        Seq::empty()
    } else if is_other_line(lines.last()) {
        without_others(lines.drop_last())
    } else {
        without_others(lines.drop_last()).push(lines.last())
    }
}

/// A layout is read back whatever other lines are printed between its own.
pub proof fn law_layout_with_other_lines_read_back(ms: Seq<MonitorModel>, lines: Seq<Seq<char>>)
    requires
        forall|i: int| 0 <= i < ms.len() ==> printable(#[trigger] ms[i]),
        forall|i: int| 0 <= i < lines.len() ==> text::is_line(#[trigger] lines[i]),
        without_others(lines) == printed(ms),
    ensures
        monitors_of(described(text::lines_of(text::joined(lines)))) == ms,
{
    text::law_lines_read_back(lines);
    lemma_without_others(lines);
    lemma_printed(ms);
}

proof fn lemma_without_others(lines: Seq<Seq<char>>)
    ensures
        described(without_others(lines)) == described(lines),
    decreases lines.len(),
{
    if lines.len() > 0 {
        let before = lines.drop_last();
        lemma_without_others(before);
        if is_other_line(lines.last()) {
            let o = opened(lines.last());
            law_other_lines_say_nothing(o, before, lines.last(), Seq::empty());
            assert(before + seq![lines.last()] + Seq::empty() =~= lines);
            assert(before + Seq::empty() =~= before);
        } else {
            assert(without_others(lines).drop_last() =~= without_others(before));
        }
    }
}

/// A line that says so enables or disables an output, and changes nothing else.
pub proof fn law_enabled_and_disabled(o: OutputModel)
    ensures
        told(o, "enabled"@).enabled,
        told(o, "enabled"@).monitor == o.monitor,
        !told(o, "disabled"@).enabled,
        told(o, "disabled"@).monitor == o.monitor,
{
    reveal_strlit("enabled");
    reveal_strlit("disabled");
    assert("enabled"@.len() != "disabled"@.len());
}

/// A geometry gives the position in its first word, as two integers with a comma between them,
/// and the size in its second, as two with an `x` between them. An integer that cannot be read
/// is zero, a word of another form says nothing, and nothing else is changed.
pub proof fn law_geometry_line(o: OutputModel, rest: Seq<char>)
    ensures
        ({
            let t = told(o, "Geometry:"@ + rest);
            let words = text::words_of(text::trimmed(rest));
            let at = text::pieces(words[0], ',');
            let size = text::pieces(words[1], 'x');
            let (lo, hi, max) = (i32::MIN as int, i32::MAX as int, u32::MAX as int);
            let (m, n) = (t.monitor, o.monitor);
            let read = |s: Seq<char>, lo: int, hi: int|
                match text::parsed(s, lo, hi) {
                    Some(v) => v,
                    None => 0int,
                };
            &&& t.enabled == o.enabled && m.name == n.name && m.scale == n.scale
            &&& if words.len() > 0 && at.len() == 2 {
                m.x == read(at[0], lo, hi) && m.y == read(at[1], lo, hi)
            } else {
                m.x == n.x && m.y == n.y
            }
            &&& if words.len() > 1 && size.len() == 2 {
                m.width == read(size[0], 0, max) && m.height == read(size[1], 0, max)
            } else {
                m.width == n.width && m.height == n.height
            }
        }),
{
    reveal_strlit("Geometry:");
    reveal_strlit("enabled");
    reveal_strlit("disabled");
    let line = "Geometry:"@ + rest;
    assert(line[0] == 'G');
    assert(line.take("Geometry:"@.len() as int) =~= "Geometry:"@);
    assert(line.skip("Geometry:"@.len() as int) =~= rest);
    assert("enabled"@[0] == 'e' && "disabled"@[0] == 'd');
}

/// A scale factor that is a number is kept as it is written; any other is one. Nothing else is
/// changed.
pub proof fn law_scale_line(o: OutputModel, rest: Seq<char>)
    ensures
        ({
            let t = told(o, "Scale:"@ + rest);
            let s = text::trimmed(rest);
            &&& t.monitor.scale == if text::is_float(s) {
                s
            } else {
                "1.0"@
            }
            &&& t.enabled == o.enabled && t.monitor.name == o.monitor.name
            &&& t.monitor.x == o.monitor.x && t.monitor.y == o.monitor.y
            &&& t.monitor.width == o.monitor.width && t.monitor.height == o.monitor.height
        }),
{
    reveal_strlit("Geometry:");
    reveal_strlit("Scale:");
    reveal_strlit("enabled");
    reveal_strlit("disabled");
    let line = "Scale:"@ + rest;
    assert(line[0] == 'S');
    assert(line.take("Scale:"@.len() as int) =~= "Scale:"@);
    assert(line.skip("Scale:"@.len() as int) =~= rest);
    assert("enabled"@[0] == 'e' && "disabled"@[0] == 'd');
    assert(!text::begins(line, "Geometry:"@)) by {
        if text::begins(line, "Geometry:"@) {
            assert(line.take("Geometry:"@.len() as int)[0] == "Geometry:"@[0]);
        }
    }
}

/// A line that begins with `Output:` opens an output after those before: its third word is the
/// name, and it is not enabled and has neither size nor position nor scale yet. Any other line
/// is about the output that was opened last, and about none if none was.
pub proof fn law_one_more_line(lines: Seq<Seq<char>>, line: Seq<char>)
    ensures
        ({
            let (a, b) = (described(lines), described(lines.push(line)));
            let t = text::trimmed(line);
            let words = text::words_of(t);
            if text::begins(t, "Output:"@) {
                &&& b.len() == a.len() + 1
                &&& b.drop_last() == a
                &&& !b.last().enabled
                &&& b.last().monitor == (MonitorModel {
                    name: if words.len() >= 3 {
                        words[2]
                    } else {
                        "unknown"@
                    },
                    x: 0,
                    y: 0,
                    width: 0,
                    height: 0,
                    scale: "1.0"@,
                })
            } else {
                &&& b.len() == a.len()
                &&& forall|i: int| 0 <= i < a.len() - 1 ==> b[i] == a[i]
                &&& a.len() > 0 ==> b.last() == told(a.last(), t)
            }
        }),
        described(Seq::empty()).len() == 0,
{
    assert(lines.push(line).drop_last() =~= lines);
    let (a, b) = (described(lines), described(lines.push(line)));
    if text::begins(text::trimmed(line), "Output:"@) {
        assert(b.drop_last() =~= a);
    }
}

/// The monitors of outputs are those of the enabled ones that have a width, one after the
/// other.
pub proof fn law_monitors_of(a: Seq<OutputModel>, o: OutputModel, b: Seq<OutputModel>)
    ensures
        monitors_of(a + b) == monitors_of(a) + monitors_of(b),
        monitors_of(seq![o]) == if o.enabled && o.monitor.width > 0 {
            seq![o.monitor]
        } else {
            Seq::empty()
        },
{
    lemma_monitors_appended(a, b);
    assert(seq![o].drop_last() =~= Seq::empty());
    reveal_with_fuel(monitors_of, 2);
    assert(monitors_of(Seq::empty()) =~= Seq::<MonitorModel>::empty());
    assert(Seq::<MonitorModel>::empty().push(o.monitor) =~= seq![o.monitor]);
}

/// The model of a monitor says what the monitor does.
pub proof fn law_models(ms: Seq<Monitor>, i: int)
    requires
        0 <= i < ms.len(),
    ensures
        models(ms).len() == ms.len(),
        models(ms)[i].name == ms[i].name@,
        models(ms)[i].x == ms[i].x,
        models(ms)[i].y == ms[i].y,
        models(ms)[i].width == ms[i].width,
        models(ms)[i].height == ms[i].height,
        models(ms)[i].scale == ms[i].scale@,
{
}

} // verus!
