//! Text as sequences of characters: lines, words, numbers.
use vstd::prelude::*;
use vstd::slice::*;

verus! {

/// `String::push` appends one character.
pub assume_specification[ String::push ](s: &mut String, c: char)
    ensures
        final(s)@ == old(s)@.push(c),
;

/// The characters of a string.
pub fn chars_of(s: &str) -> (v: Vec<char>)
    ensures
        v@ == s@,
{
    let mut v: Vec<char> = Vec::new();
    for c in it: s.chars()
        invariant
            it.seq() == s@,
            v@ == s@.take(it.index() as int),
    {
        assert(s@.take(it.index() + 1) =~= s@.take(it.index() as int).push(c));
        v.push(c);
    }
    assert(s@.take(s@.len() as int) =~= s@);
    v
}

/// The string of some characters.
pub fn string_of(v: &[char]) -> (s: String)
    ensures
        s@ == v@,
{
    let mut s = String::new();
    let mut i: usize = 0;
    while i < v.len()
        invariant
            i <= v@.len(),
            s@ == v@.take(i as int),
        decreases v@.len() - i,
    {
        s.push(v[i]);
        i = i + 1;
        assert(v@.take(i as int) =~= v@.take(i - 1).push(v@[i - 1]));
    }
    assert(v@.take(i as int) =~= v@);
    s
}

/// Appends a text.
pub fn append(s: &mut String, t: &str)
    ensures
        final(s)@ == old(s)@ + t@,
{
    let ghost before = s@;
    assert(before + t@.take(0) =~= before);
    for c in it: t.chars()
        invariant
            it.seq() == t@,
            s@ == before + t@.take(it.index() as int),
    {
        assert(before + t@.take(it.index() + 1) =~= (before + t@.take(it.index() as int)).push(c));
        s.push(c);
    }
    assert(t@.take(t@.len() as int) =~= t@);
}

/// What bytes say when they are read as UTF-8, and what is not UTF-8 is replaced.
pub uninterp spec fn lossy_text(bytes: Seq<u8>) -> Seq<char>;

/// Reads bytes as text with `String::from_utf8_lossy`.
///
/// Believed without proof: the text depends on the bytes alone, and bytes that are UTF-8
/// are read as what they encode. How much of other bytes one replacement character stands
/// for is not said here.
#[verifier::external_body]
pub(crate) fn lossy(bytes: &[u8]) -> (s: String)
    ensures
        s@ == lossy_text(bytes@),
        vstd::utf8::valid_utf8(bytes@) ==> s@ == vstd::utf8::decode_utf8(bytes@),
{
    String::from_utf8_lossy(bytes).into_owned()
}

/// Whether a character has the Unicode property White_Space.
pub open spec fn is_space(c: char) -> bool {
    let n = c as u32;
    ||| 0x09 <= n <= 0x0d
    ||| n == 0x20
    ||| n == 0x85
    ||| n == 0xa0
    ||| n == 0x1680
    ||| 0x2000 <= n <= 0x200a
    ||| n == 0x2028
    ||| n == 0x2029
    ||| n == 0x202f
    ||| n == 0x205f
    ||| n == 0x3000
}

pub fn is_whitespace(c: char) -> (b: bool)
    ensures
        b == is_space(c),
{
    let n: u32 = c as u32;
    (0x09 <= n && n <= 0x0d) || n == 0x20 || n == 0x85 || n == 0xa0 || n == 0x1680 || (0x2000 <= n
        && n <= 0x200a) || n == 0x2028 || n == 0x2029 || n == 0x202f || n == 0x205f || n == 0x3000
}

/// The text without the whitespace it begins with.
pub open spec fn trimmed_start(s: Seq<char>) -> Seq<char>
    decreases s.len(),
{
    if s.len() > 0 && is_space(s[0]) {
        trimmed_start(s.skip(1))
    } else {
        s
    }
}

/// The text without the whitespace it ends with.
pub open spec fn trimmed_end(s: Seq<char>) -> Seq<char>
    decreases s.len(),
{
    if s.len() > 0 && is_space(s.last()) {
        trimmed_end(s.drop_last())
    } else {
        s
    }
}

/// The text without the whitespace around it.
pub open spec fn trimmed(s: Seq<char>) -> Seq<char> {
    trimmed_end(trimmed_start(s))
}

/// The text without the whitespace around it.
pub fn trim(s: &[char]) -> (r: &[char])
    ensures
        r@ == trimmed(s@),
{
    let mut i: usize = 0;
    assert(s@.skip(0) =~= s@);
    while i < s.len() && is_whitespace(s[i])
        invariant
            i <= s@.len(),
            trimmed_start(s@) == trimmed_start(s@.skip(i as int)),
        decreases s@.len() - i,
    {
        assert(s@.skip(i as int).skip(1) =~= s@.skip(i + 1));
        i = i + 1;
    }
    let ghost rest = s@.skip(i as int);
    let mut j: usize = s.len();
    assert(s@.subrange(i as int, j as int) =~= rest);
    while j > i && is_whitespace(s[j - 1])
        invariant
            i <= j <= s@.len(),
            trimmed_end(rest) == trimmed_end(s@.subrange(i as int, j as int)),
        decreases j,
    {
        assert(s@.subrange(i as int, j as int).drop_last() =~= s@.subrange(i as int, j - 1));
        j = j - 1;
    }
    slice_subrange(s, i, j)
}

/// The first index at or after `from` where a character is `c`; the length if none is.
pub open spec fn find_from(s: Seq<char>, c: char, from: int) -> int
    decreases s.len() - from,
{
    if from >= s.len() {
        s.len() as int
    } else if s[from] == c {
        from
    } else {
        find_from(s, c, from + 1)
    }
}

/// The pieces between the occurrences of `c`, as `str::split` gives them: always one
/// more than there are occurrences.
pub open spec fn pieces(s: Seq<char>, c: char) -> Seq<Seq<char>>
    decreases s.len(),
{
    let i = find_from(s, c, 0);
    if 0 <= i < s.len() {
        seq![s.take(i)] + pieces(s.skip(i + 1), c)
    } else {
        seq![s]
    }
}

proof fn lemma_find_from(s: Seq<char>, c: char, from: int)
    requires
        0 <= from <= s.len(),
    ensures
        from <= find_from(s, c, from) <= s.len(),
        forall|k: int| from <= k < find_from(s, c, from) ==> s[k] != c,
        find_from(s, c, from) < s.len() ==> s[find_from(s, c, from)] == c,
    decreases s.len() - from,
{
    if from < s.len() && s[from] != c {
        lemma_find_from(s, c, from + 1);
    }
}

/// Looking for a character in a suffix is looking for it from where the suffix starts.
proof fn lemma_find_suffix(s: Seq<char>, c: char, start: int, from: int)
    requires
        0 <= start,
        0 <= from,
        start + from <= s.len(),
    ensures
        find_from(s, c, start + from) == start + find_from(s.skip(start), c, from),
    decreases s.len() - start - from,
{
    if start + from < s.len() && s[start + from] != c {
        lemma_find_suffix(s, c, start, from + 1);
    }
}

/// The pieces of the text between the occurrences of `c`.
pub fn split<'a>(s: &'a [char], c: char) -> (r: Vec<&'a [char]>)
    ensures
        r@.len() == pieces(s@, c).len(),
        forall|i: int| 0 <= i < r@.len() ==> (#[trigger] r@[i])@ == pieces(s@, c)[i],
{
    let mut r: Vec<&'a [char]> = Vec::new();
    let mut start: usize = 0;
    let mut i: usize = 0;
    let ghost all = pieces(s@, c);
    assert(s@.skip(0) =~= s@);
    while i < s.len()
        invariant
            start <= i <= s@.len(),
            all == pieces(s@, c),
            r@.len() + pieces(s@.skip(start as int), c).len() == all.len(),
            forall|k: int| 0 <= k < r@.len() ==> (#[trigger] r@[k])@ == all[k],
            forall|k: int|
                0 <= k < pieces(s@.skip(start as int), c).len() ==> #[trigger] pieces(
                    s@.skip(start as int),
                    c,
                )[k] == all[r@.len() + k],
            find_from(s@, c, start as int) == find_from(s@, c, i as int),
        decreases s@.len() - i,
    {
        if s[i] == c {
            proof {
                let rest = s@.skip(start as int);
                lemma_find_suffix(s@, c, start as int, 0);
                lemma_find_from(s@, c, start as int);
                assert(rest.take(i - start) =~= s@.subrange(start as int, i as int));
                assert(rest.skip(i - start + 1) =~= s@.skip(i + 1));
                let tail = pieces(s@.skip(i + 1), c);
                assert(pieces(rest, c) == seq![rest.take(i - start)] + tail);
                assert(pieces(rest, c)[0] == rest.take(i - start));
                assert forall|k: int| 0 <= k < tail.len() implies #[trigger] tail[k] == all[r@.len() + 1
                    + k] by {
                    assert(pieces(rest, c)[k + 1] == tail[k]);
                }
            }
            r.push(slice_subrange(s, start, i));
            start = i + 1;
        }
        i = i + 1;
    }
    proof {
        let rest = s@.skip(start as int);
        lemma_find_suffix(s@, c, start as int, 0);
        assert(pieces(rest, c) == seq![rest]);
        assert(pieces(rest, c)[0] == rest);
        assert(s@.subrange(start as int, s@.len() as int) =~= rest);
    }
    r.push(slice_subrange(s, start, s.len()));
    r
}

/// A line without the carriage return that came before its line feed.
pub open spec fn without_return(s: Seq<char>) -> Seq<char> {
    if s.len() > 0 && s.last() == '\r' {
        s.drop_last()
    } else {
        s
    }
}

/// The lines of a text, as `str::lines` gives them: each ends with a line feed, or with
/// a carriage return and a line feed; only the last may end without.
pub open spec fn lines_of(s: Seq<char>) -> Seq<Seq<char>> {
    let p = pieces(s, '\n');
    let ended = Seq::new((p.len() - 1) as nat, |i: int| without_return(p[i]));
    if p.last().len() == 0 {
        ended
    } else {
        ended.push(p.last())
    }
}

/// The lines of a text.
pub fn lines<'a>(s: &'a [char]) -> (r: Vec<&'a [char]>)
    ensures
        r@.len() == lines_of(s@).len(),
        forall|i: int| 0 <= i < r@.len() ==> (#[trigger] r@[i])@ == lines_of(s@)[i],
{
    let p = split(s, '\n');
    let mut r: Vec<&'a [char]> = Vec::new();
    let mut i: usize = 0;
    assert(pieces(s@, '\n').len() > 0);
    while i < p.len() - 1
        invariant
            i + 1 <= p@.len(),
            p@.len() == pieces(s@, '\n').len(),
            forall|k: int| 0 <= k < p@.len() ==> (#[trigger] p@[k])@ == pieces(s@, '\n')[k],
            r@.len() == i,
            forall|k: int|
                0 <= k < i ==> (#[trigger] r@[k])@ == without_return(pieces(s@, '\n')[k]),
        decreases p@.len() - i,
    {
        let line: &'a [char] = p[i];
        if line.len() > 0 && line[line.len() - 1] == '\r' {
            assert(line@.subrange(0, line@.len() - 1) =~= line@.drop_last());
            r.push(slice_subrange(line, 0, line.len() - 1));
        } else {
            r.push(line);
        }
        i = i + 1;
    }
    let last: &'a [char] = p[i];
    if last.len() > 0 {
        r.push(last);
    }
    r
}

/// Lines written down, each with a line feed after it.
pub open spec fn joined(lines: Seq<Seq<char>>) -> Seq<char>
    decreases lines.len(),
{
    if lines.len() == 0 {
        Seq::empty()
    } else {
        lines[0] + seq!['\n'] + joined(lines.skip(1))
    }
}

/// Whether a text can be a line: it holds no line feed, and does not end with a carriage
/// return.
pub open spec fn is_line(s: Seq<char>) -> bool {
    !s.contains('\n') && without_return(s) == s
}

/// Lines that are written down are read back.
pub proof fn law_lines_read_back(lines: Seq<Seq<char>>)
    requires
        forall|i: int| 0 <= i < lines.len() ==> is_line(#[trigger] lines[i]),
    ensures
        lines_of(joined(lines)) == lines,
{
    lemma_pieces_of_lines(lines);
    let p = pieces(joined(lines), '\n');
    assert(p.last().len() == 0);
    assert(lines_of(joined(lines)) =~= lines) by {
        assert forall|i: int| 0 <= i < lines.len() implies without_return(p[i]) == lines[i] by {
            assert(is_line(lines[i]));
        }
    }
}

proof fn lemma_pieces_of_lines(lines: Seq<Seq<char>>)
    requires
        forall|i: int| 0 <= i < lines.len() ==> is_line(#[trigger] lines[i]),
    ensures
        pieces(joined(lines), '\n') == lines.push(Seq::empty()),
    decreases lines.len(),
{
    if lines.len() == 0 {
        lemma_one_piece(joined(lines), '\n');
        assert(seq![joined(lines)] =~= lines.push(Seq::empty()));
    } else {
        let rest = lines.skip(1);
        assert forall|i: int| 0 <= i < rest.len() implies is_line(#[trigger] rest[i]) by {
            assert(is_line(lines[i + 1]));
        }
        lemma_pieces_of_lines(rest);
        assert(is_line(lines[0]));
        assert forall|i: int| 0 <= i < lines[0].len() implies lines[0][i] != '\n' by {
            assert(lines[0].contains(lines[0][i]));
        }
        lemma_pieces_joined(lines[0], '\n', joined(rest));
        assert(seq![lines[0]] + rest.push(Seq::empty()) =~= lines.push(Seq::empty()));
    }
}

/// The first index at or after `from` where a character is whitespace; the length if
/// none is.
pub open spec fn space_from(s: Seq<char>, from: int) -> int
    decreases s.len() - from,
{
    if from >= s.len() {
        s.len() as int
    } else if is_space(s[from]) {
        from
    } else {
        space_from(s, from + 1)
    }
}

/// The words of a text: the longest runs of characters that are not whitespace.
pub open spec fn words_of(s: Seq<char>) -> Seq<Seq<char>>
    decreases s.len(),
{
    if s.len() == 0 {
        Seq::empty()
    } else if is_space(s[0]) {
        words_of(s.skip(1))
    } else {
        let k = space_from(s, 1);
        if 1 <= k <= s.len() {
            seq![s.take(k)] + words_of(s.skip(k))
        } else {
            Seq::empty()
        }
    }
}

proof fn lemma_space_suffix(s: Seq<char>, start: int, from: int)
    requires
        0 <= start,
        0 <= from,
        start + from <= s.len(),
    ensures
        space_from(s, start + from) == start + space_from(s.skip(start), from),
        start + from <= space_from(s, start + from) <= s.len(),
    decreases s.len() - start - from,
{
    if start + from < s.len() && !is_space(s[start + from]) {
        lemma_space_suffix(s, start, from + 1);
    }
}

/// The words of a text.
pub fn words<'a>(s: &'a [char]) -> (r: Vec<&'a [char]>)
    ensures
        r@.len() == words_of(s@).len(),
        forall|i: int| 0 <= i < r@.len() ==> (#[trigger] r@[i])@ == words_of(s@)[i],
{
    let mut r: Vec<&'a [char]> = Vec::new();
    let mut start: usize = 0;
    let ghost all = words_of(s@);
    assert(s@.skip(0) =~= s@);
    while start < s.len()
        invariant
            start <= s@.len(),
            all == words_of(s@),
            r@.len() + words_of(s@.skip(start as int)).len() == all.len(),
            forall|k: int| 0 <= k < r@.len() ==> (#[trigger] r@[k])@ == all[k],
            forall|k: int|
                0 <= k < words_of(s@.skip(start as int)).len() ==> #[trigger] words_of(
                    s@.skip(start as int),
                )[k] == all[r@.len() + k],
        decreases s@.len() - start,
    {
        let ghost rest = s@.skip(start as int);
        if is_whitespace(s[start]) {
            assert(rest.skip(1) =~= s@.skip(start + 1));
            start = start + 1;
        } else {
            let mut i: usize = start + 1;
            while i < s.len() && !is_whitespace(s[i])
                invariant
                    start + 1 <= i <= s@.len(),
                    space_from(s@, start + 1) == space_from(s@, i as int),
                decreases s@.len() - i,
            {
                i = i + 1;
            }
            proof {
                lemma_space_suffix(s@, start as int, 1);
                assert(space_from(rest, 1) == i - start);
                assert(rest.take(i - start) =~= s@.subrange(start as int, i as int));
                assert(rest.skip(i - start) =~= s@.skip(i as int));
                let tail = words_of(s@.skip(i as int));
                assert(words_of(rest) == seq![rest.take(i - start)] + tail);
                assert(words_of(rest)[0] == rest.take(i - start));
                assert forall|k: int| 0 <= k < tail.len() implies #[trigger] tail[k] == all[r@.len() + 1
                    + k] by {
                    assert(words_of(rest)[k + 1] == tail[k]);
                }
            }
            r.push(slice_subrange(s, start, i));
            start = i;
        }
    }
    assert(words_of(s@.skip(start as int)).len() == 0);
    r
}

/// Whether a text begins with another.
pub open spec fn begins(s: Seq<char>, prefix: Seq<char>) -> bool {
    prefix.len() <= s.len() && s.take(prefix.len() as int) == prefix
}

/// The rest of a text that begins with a prefix, `None` if it does not.
pub fn strip_prefix<'a>(s: &'a [char], prefix: &str) -> (r: Option<&'a [char]>)
    ensures
        begins(s@, prefix@) ==> r is Some && r->0@ == s@.skip(prefix@.len() as int),
        !begins(s@, prefix@) ==> r is None,
{
    let p = chars_of(prefix);
    if s.len() < p.len() {
        return None;
    }
    let mut i: usize = 0;
    while i < p.len()
        invariant
            p@ == prefix@,
            p@.len() <= s@.len(),
            i <= p@.len(),
            forall|k: int| 0 <= k < i ==> s@[k] == p@[k],
        decreases p@.len() - i,
    {
        if s[i] != p[i] {
            assert(s@.take(p@.len() as int)[i as int] != p@[i as int]);
            return None;
        }
        i = i + 1;
    }
    assert(s@.take(p@.len() as int) =~= p@);
    assert(s@.subrange(i as int, s@.len() as int) =~= s@.skip(i as int));
    Some(slice_subrange(s, i, s.len()))
}

/// Whether two texts are the same.
pub fn same(s: &[char], other: &str) -> (b: bool)
    ensures
        b == (s@ == other@),
{
    match strip_prefix(s, other) {
        Some(rest) => {
            assert(rest@.len() == 0 ==> s@.take(other@.len() as int) =~= s@);
            rest.len() == 0
        },
        None => {
            assert(s@ == other@ ==> s@.take(other@.len() as int) =~= s@);
            false
        },
    }
}

/// Whether a character is an ASCII digit.
pub open spec fn is_digit(c: char) -> bool {
    '0' <= c <= '9'
}

/// What an ASCII digit counts.
pub open spec fn digit(c: char) -> nat {
    (c as u32 - '0' as u32) as nat
}

/// Whether a text is one or more ASCII digits.
pub open spec fn all_digits(s: Seq<char>) -> bool {
    s.len() > 0 && forall|i: int| 0 <= i < s.len() ==> is_digit(#[trigger] s[i])
}

/// The number that digits write down.
pub open spec fn digits_value(s: Seq<char>) -> nat
    decreases s.len(),
{
    if s.len() == 0 {
        0
    } else {
        10 * digits_value(s.drop_last()) + digit(s.last())
    }
}

/// The integer between `lo` and `hi` that a text writes down, as `str::parse` reads one:
/// digits, after a `+`, or after a `-` where `lo` is negative.
pub open spec fn parsed(s: Seq<char>, lo: int, hi: int) -> Option<int> {
    let negative = s.len() > 0 && s[0] == '-' && lo < 0;
    let digits = if negative || s.len() > 0 && s[0] == '+' {
        s.skip(1)
    } else {
        s
    };
    let v = if negative {
        -digits_value(digits)
    } else {
        digits_value(digits) as int
    };
    if all_digits(digits) && lo <= v <= hi {
        Some(v)
    } else {
        None
    }
}

proof fn lemma_digits_prefix(s: Seq<char>, i: int)
    requires
        0 <= i <= s.len(),
    ensures
        digits_value(s.take(i)) <= digits_value(s),
    decreases s.len() - i,
{
    if i < s.len() {
        lemma_digits_prefix(s, i + 1);
        assert(s.take(i + 1).drop_last() =~= s.take(i));
    } else {
        assert(s.take(i) =~= s);
    }
}

/// The number that digits write down, `None` if they are not digits, or more than `hi`.
fn parse_digits(s: &[char], hi: u64) -> (r: Option<u64>)
    ensures
        r == if all_digits(s@) && digits_value(s@) <= hi {
            Some(digits_value(s@) as u64)
        } else {
            None::<u64>
        },
{
    if s.len() == 0 {
        return None;
    }
    let mut v: u64 = 0;
    let mut i: usize = 0;
    while i < s.len()
        invariant
            i <= s@.len(),
            v == digits_value(s@.take(i as int)),
            v <= hi,
            forall|k: int| 0 <= k < i ==> is_digit(#[trigger] s@[k]),
        decreases s@.len() - i,
    {
        let c: char = s[i];
        if !('0' <= c && c <= '9') {
            return None;
        }
        assert(s@.take(i + 1).drop_last() =~= s@.take(i as int));
        let next: u128 = (v as u128) * 10 + ((c as u32 - '0' as u32) as u128);
        if next > hi as u128 {
            proof {
                lemma_digits_prefix(s@, i + 1);
            }
            return None;
        }
        v = next as u64;
        i = i + 1;
    }
    assert(s@.take(i as int) =~= s@);
    Some(v)
}

/// Reads an integer from zero to `hi`.
pub fn parse_unsigned(s: &[char], hi: u64) -> (r: Option<u64>)
    ensures
        match parsed(s@, 0, hi as int) {
            Some(v) => r is Some && r->0 == v,
            None => r is None,
        },
{
    if s.len() > 0 && s[0] == '+' {
        assert(s@.subrange(1, s@.len() as int) =~= s@.skip(1));
        parse_digits(slice_subrange(s, 1, s.len()), hi)
    } else {
        parse_digits(s, hi)
    }
}

/// Reads an `i32`.
pub fn parse_i32(s: &[char]) -> (r: Option<i32>)
    ensures
        match parsed(s@, i32::MIN as int, i32::MAX as int) {
            Some(v) => r is Some && r->0 == v,
            None => r is None,
        },
{
    if s.len() > 0 && s[0] == '-' {
        assert(s@.subrange(1, s@.len() as int) =~= s@.skip(1));
        match parse_digits(slice_subrange(s, 1, s.len()), 0x8000_0000) {
            Some(v) => Some((-(v as i64)) as i32),
            None => None,
        }
    } else {
        match parse_unsigned(s, 0x7fff_ffff) {
            Some(v) => Some(v as i32),
            None => None,
        }
    }
}

/// A character with an ASCII capital letter made small.
pub open spec fn small(c: char) -> char {
    if 'A' <= c <= 'Z' {
        (c as u32 + 32) as char
    } else {
        c
    }
}

/// The text with ASCII capital letters made small.
pub open spec fn lowered(s: Seq<char>) -> Seq<char> {
    Seq::new(s.len(), |i: int| small(s[i]))
}

/// The text without a sign that it begins with.
pub open spec fn without_sign(s: Seq<char>) -> Seq<char> {
    if s.len() > 0 && (s[0] == '+' || s[0] == '-') {
        s.skip(1)
    } else {
        s
    }
}

/// Whether a text is ASCII digits, or nothing.
pub open spec fn only_digits(s: Seq<char>) -> bool {
    s.len() == 0 || all_digits(s)
}

/// Whether a text is digits, with a point before, among or after them, or without one.
pub open spec fn is_fixed_point(s: Seq<char>) -> bool {
    let i = find_from(s, '.', 0);
    if i < s.len() {
        only_digits(s.take(i)) && only_digits(s.skip(i + 1)) && s.len() > 1
    } else {
        all_digits(s)
    }
}

/// Whether a text is digits with or without a point, and after them an exponent or none: an
/// `e`, a sign or none, and digits.
pub open spec fn is_decimal_number(s: Seq<char>) -> bool {
    let i = find_from(s, 'e', 0);
    if i < s.len() {
        is_fixed_point(s.take(i)) && all_digits(without_sign(s.skip(i + 1)))
    } else {
        is_fixed_point(s)
    }
}

/// Whether a text writes down a floating-point number, as `str::parse` reads one: after a
/// sign or none, a decimal number, an infinity or not a number. Capital letters count as
/// small ones.
pub open spec fn is_float(s: Seq<char>) -> bool {
    let t = without_sign(lowered(s));
    t == "inf"@ || t == "infinity"@ || t == "nan"@ || is_decimal_number(t)
}

fn lower(s: &[char]) -> (r: Vec<char>)
    ensures
        r@ == lowered(s@),
{
    let mut r: Vec<char> = Vec::new();
    let mut i: usize = 0;
    while i < s.len()
        invariant
            i <= s@.len(),
            r@ == lowered(s@).take(i as int),
        decreases s@.len() - i,
    {
        let c: char = s[i];
        if 'A' <= c && c <= 'Z' {
            r.push((c as u8 + 32) as char);
        } else {
            r.push(c);
        }
        i = i + 1;
        assert(lowered(s@).take(i as int) =~= lowered(s@).take(i - 1).push(small(c)));
    }
    assert(lowered(s@).take(i as int) =~= lowered(s@));
    r
}

fn strip_sign(s: &[char]) -> (r: &[char])
    ensures
        r@ == without_sign(s@),
{
    if s.len() > 0 && (s[0] == '+' || s[0] == '-') {
        assert(s@.subrange(1, s@.len() as int) =~= s@.skip(1));
        slice_subrange(s, 1, s.len())
    } else {
        s
    }
}

fn are_digits(s: &[char]) -> (b: bool)
    ensures
        b == only_digits(s@),
{
    let mut i: usize = 0;
    while i < s.len()
        invariant
            i <= s@.len(),
            forall|k: int| 0 <= k < i ==> is_digit(#[trigger] s@[k]),
        decreases s@.len() - i,
    {
        if !('0' <= s[i] && s[i] <= '9') {
            return false;
        }
        i = i + 1;
    }
    true
}

fn find(s: &[char], c: char) -> (r: usize)
    ensures
        r == find_from(s@, c, 0),
        r <= s@.len(),
{
    let mut i: usize = 0;
    while i < s.len() && s[i] != c
        invariant
            i <= s@.len(),
            find_from(s@, c, 0) == find_from(s@, c, i as int),
        decreases s@.len() - i,
    {
        i = i + 1;
    }
    i
}

fn parses_as_fixed_point(s: &[char]) -> (b: bool)
    ensures
        b == is_fixed_point(s@),
{
    let i: usize = find(s, '.');
    if i < s.len() {
        assert(s@.subrange(0, i as int) =~= s@.take(i as int));
        assert(s@.subrange(i + 1, s@.len() as int) =~= s@.skip(i + 1));
        are_digits(slice_subrange(s, 0, i)) && are_digits(slice_subrange(s, i + 1, s.len()))
            && s.len() > 1
    } else {
        s.len() > 0 && are_digits(s)
    }
}

fn parses_as_decimal_number(s: &[char]) -> (b: bool)
    ensures
        b == is_decimal_number(s@),
{
    let i: usize = find(s, 'e');
    if i < s.len() {
        assert(s@.subrange(0, i as int) =~= s@.take(i as int));
        assert(s@.subrange(i + 1, s@.len() as int) =~= s@.skip(i + 1));
        let exponent = strip_sign(slice_subrange(s, i + 1, s.len()));
        parses_as_fixed_point(slice_subrange(s, 0, i)) && exponent.len() > 0 && are_digits(exponent)
    } else {
        parses_as_fixed_point(s)
    }
}

/// Whether a text writes down a floating-point number.
pub fn parses_as_float(s: &[char]) -> (b: bool)
    ensures
        b == is_float(s@),
{
    let small = lower(s);
    let t = strip_sign(small.as_slice());
    same(t, "inf") || same(t, "infinity") || same(t, "nan") || parses_as_decimal_number(t)
}

/// Digits, and digits with a point and digits after them, write down a number.
pub proof fn lemma_is_float(a: Seq<char>, b: Seq<char>)
    requires
        all_digits(a),
        all_digits(b),
    ensures
        is_float(a),
        is_float(a + seq!['.'] + b),
{
    let s = a + seq!['.'] + b;
    assert forall|i: int| 0 <= i < s.len() implies is_digit(#[trigger] s[i]) || i == a.len() by {
        if i < a.len() {
            assert(is_digit(a[i]));
        } else if i > a.len() {
            assert(is_digit(b[i - a.len() - 1]));
        }
    }
    assert(lowered(s) =~= s);
    assert(is_digit(s[0]));
    lemma_find_from(s, 'e', 0);
    lemma_find_from(s, '.', 0);
    let i = find_from(s, '.', 0);
    assert(s[a.len() as int] == '.');
    assert(i == a.len());
    assert(s.take(i) =~= a);
    assert(s.skip(i + 1) =~= b);
    assert(lowered(a) =~= a);
    assert(is_digit(a[0]));
    lemma_find_from(a, 'e', 0);
    lemma_find_from(a, '.', 0);
}

/// The ASCII digit that counts `d`.
pub open spec fn digit_char(d: nat) -> char {
    ('0' as u32 + d) as char
}

/// A number written down in decimal.
pub open spec fn decimal(n: nat) -> Seq<char>
    decreases n,
{
    if n < 10 {
        seq![digit_char(n)]
    } else {
        decimal(n / 10).push(digit_char(n % 10))
    }
}

/// An integer written down in decimal.
pub open spec fn decimal_int(v: int) -> Seq<char> {
    if v < 0 {
        seq!['-'] + decimal((-v) as nat)
    } else {
        decimal(v as nat)
    }
}

fn push_decimal(s: &mut String, n: u64)
    ensures
        final(s)@ == old(s)@ + decimal(n as nat),
    decreases n,
{
    if n >= 10 {
        push_decimal(s, n / 10);
    }
    let d: u8 = (n % 10) as u8;
    let c: char = (48u8 + d) as char;
    s.push(c);
    proof {
        let before = old(s)@;
        if n >= 10 {
            assert(before + decimal(n as nat) =~= (before + decimal((n / 10) as nat)).push(
                digit_char((n % 10) as nat),
            ));
        } else {
            assert(before + decimal(n as nat) =~= before.push(digit_char(n as nat)));
        }
    }
}

/// Appends an integer in decimal.
pub fn append_int(s: &mut String, v: i64)
    ensures
        final(s)@ == old(s)@ + decimal_int(v as int),
{
    let ghost before = s@;
    if v < 0 {
        s.push('-');
        let n: u64 = (-(v as i128)) as u64;
        push_decimal(s, n);
        assert(before.push('-') + decimal(n as nat) =~= before + decimal_int(v as int));
    } else {
        push_decimal(s, v as u64);
    }
}

/// An integer in decimal.
pub fn int_text(v: i64) -> (s: String)
    ensures
        s@ == decimal_int(v as int),
{
    let mut s = String::new();
    append_int(&mut s, v);
    assert(Seq::<char>::empty() + decimal_int(v as int) =~= decimal_int(v as int));
    s
}

/// What some strings say.
pub open spec fn texts(v: Seq<String>) -> Seq<Seq<char>> {
    Seq::new(v.len(), |i: int| v[i]@)
}

proof fn lemma_decimal_digits(n: nat)
    ensures
        all_digits(decimal(n)),
        digits_value(decimal(n)) == n,
    decreases n,
{
    if n < 10 {
        let c = digit_char(n);
        assert(is_digit(c) && digit(c) == n);
        assert(decimal(n).drop_last() =~= Seq::<char>::empty());
        reveal_with_fuel(digits_value, 2);
    } else {
        lemma_decimal_digits(n / 10);
        let c = digit_char(n % 10);
        assert(is_digit(c) && digit(c) == n % 10);
        assert(decimal(n).drop_last() =~= decimal(n / 10));
    }
}

/// An integer written down in decimal is read back.
pub proof fn law_decimal_read_back(v: int, lo: int, hi: int)
    requires
        lo <= v <= hi,
        lo <= 0,
    ensures
        parsed(decimal_int(v), lo, hi) == Some(v),
{
    let n = if v < 0 {
        (-v) as nat
    } else {
        v as nat
    };
    lemma_decimal_digits(n);
    if v < 0 {
        assert(decimal_int(v).skip(1) =~= decimal(n));
    } else {
        assert(is_digit(decimal(n)[0]));
    }
}

/// Whether a text is a word: not empty, and without whitespace.
pub open spec fn is_word(s: Seq<char>) -> bool {
    s.len() > 0 && forall|i: int| 0 <= i < s.len() ==> !is_space(#[trigger] s[i])
}

/// A text in which `c` does not occur is its own only piece.
pub proof fn lemma_one_piece(s: Seq<char>, c: char)
    requires
        forall|i: int| 0 <= i < s.len() ==> s[i] != c,
    ensures
        pieces(s, c) == seq![s],
{
    lemma_find_from(s, c, 0);
}

/// The first of two pieces ends where `c` first occurs.
pub proof fn lemma_pieces_joined(a: Seq<char>, c: char, b: Seq<char>)
    requires
        forall|i: int| 0 <= i < a.len() ==> a[i] != c,
    ensures
        pieces(a + seq![c] + b, c) == seq![a] + pieces(b, c),
{
    let s = a + seq![c] + b;
    lemma_find_from(s, c, 0);
    let i = find_from(s, c, 0);
    assert(s[a.len() as int] == c);
    assert(i == a.len()) by {
        if i < a.len() {
            assert(s[i] == a[i]);
        }
    }
    assert(s.take(i) =~= a);
    assert(s.skip(i + 1) =~= b);
}

proof fn lemma_space_from(s: Seq<char>, from: int)
    requires
        0 <= from <= s.len(),
    ensures
        from <= space_from(s, from) <= s.len(),
        forall|k: int| from <= k < space_from(s, from) ==> !is_space(s[k]),
        space_from(s, from) < s.len() ==> is_space(s[space_from(s, from)]),
    decreases s.len() - from,
{
    if from < s.len() && !is_space(s[from]) {
        lemma_space_from(s, from + 1);
    }
}

/// A word is its own only word.
pub proof fn lemma_one_word(s: Seq<char>)
    requires
        is_word(s),
    ensures
        words_of(s) == seq![s],
{
    lemma_space_from(s, 1);
    let k = space_from(s, 1);
    assert(k == s.len());
    assert(s.take(k) =~= s);
    assert(words_of(s.skip(k)) =~= Seq::empty());
    assert(seq![s] + Seq::<Seq<char>>::empty() =~= seq![s]);
}

/// A word ends at the space that follows it.
pub proof fn lemma_words_joined(a: Seq<char>, b: Seq<char>)
    requires
        is_word(a),
    ensures
        words_of(a + seq![' '] + b) == seq![a] + words_of(b),
{
    let s = a + seq![' '] + b;
    lemma_space_from(s, 1);
    let k = space_from(s, 1);
    assert(s[0] == a[0]);
    assert(s[a.len() as int] == ' ');
    assert(k == a.len()) by {
        if k < a.len() {
            assert(s[k] == a[k]);
        }
    }
    assert(s.take(k) =~= a);
    let t = s.skip(k);
    assert(t[0] == ' ');
    assert(t.skip(1) =~= b);
    assert(words_of(t) == words_of(b));
}

/// A text that neither begins nor ends with whitespace is trimmed already.
pub proof fn lemma_trimmed_already(s: Seq<char>)
    requires
        s.len() > 0,
        !is_space(s[0]),
        !is_space(s.last()),
    ensures
        trimmed(s) == s,
{
}

/// Trimming takes a leading space away.
pub proof fn lemma_trimmed_after_space(s: Seq<char>)
    ensures
        trimmed(seq![' '] + s) == trimmed(s),
{
    let t = seq![' '] + s;
    assert(t[0] == ' ');
    assert(t.skip(1) =~= s);
}

/// What an integer in decimal is made of.
pub proof fn lemma_decimal_chars(v: int)
    ensures
        decimal_int(v).len() > 0,
        forall|i: int|
            0 <= i < decimal_int(v).len() ==> is_digit(#[trigger] decimal_int(v)[i])
                || decimal_int(v)[i] == '-',
        is_word(decimal_int(v)),
{
    let n = if v < 0 {
        (-v) as nat
    } else {
        v as nat
    };
    lemma_decimal_digits(n);
    assert forall|i: int| 0 <= i < decimal_int(v).len() implies is_digit(
        #[trigger] decimal_int(v)[i],
    ) || decimal_int(v)[i] == '-' by {
        if v < 0 && i > 0 {
            assert(decimal_int(v)[i] == decimal(n)[i - 1]);
        }
    }
}

/// Splitting a text that ends with `c`, and another after it, is splitting both.
proof fn lemma_pieces_appended(a: Seq<char>, c: char, b: Seq<char>)
    requires
        a.len() > 0,
        a.last() == c,
    ensures
        pieces(a, c).len() > 1,
        pieces(a, c).last() == Seq::<char>::empty(),
        pieces(a + b, c) == pieces(a, c).drop_last() + pieces(b, c),
    decreases a.len(),
{
    lemma_find_from(a, c, 0);
    let i = find_from(a, c, 0);
    assert(i < a.len()) by {
        if i == a.len() {
            assert(a[a.len() - 1] != c);
        }
    }
    let (first, rest) = (a.take(i), a.skip(i + 1));
    assert(a =~= first + seq![c] + rest);
    assert(a + b =~= first + seq![c] + (rest + b));
    lemma_pieces_joined(first, c, rest);
    lemma_pieces_joined(first, c, rest + b);
    if rest.len() == 0 {
        lemma_one_piece(rest, c);
        assert(rest =~= Seq::<char>::empty());
        assert(rest + b =~= b);
        assert(pieces(a, c).drop_last() =~= seq![first]);
    } else {
        assert(rest.last() == c);
        lemma_pieces_appended(rest, c, b);
        assert(pieces(a, c).drop_last() =~= seq![first] + pieces(rest, c).drop_last());
        assert(pieces(a + b, c) =~= pieces(a, c).drop_last() + pieces(b, c));
    }
}

/// The lines of a text that ends with a line feed, and of another after it, are the lines of
/// both.
pub proof fn law_lines_appended(a: Seq<char>, b: Seq<char>)
    requires
        a.len() > 0 ==> a.last() == '\n',
    ensures
        lines_of(a + b) == lines_of(a) + lines_of(b),
{
    if a.len() == 0 {
        lemma_one_piece(a, '\n');
        assert(a + b =~= b);
        assert(lines_of(a) =~= Seq::empty());
        assert(Seq::<Seq<char>>::empty() + lines_of(b) =~= lines_of(b));
    } else {
        lemma_pieces_appended(a, '\n', b);
        let (p, q, r) = (pieces(a, '\n'), pieces(b, '\n'), pieces(a + b, '\n'));
        assert(q.len() > 0);
        assert(r.last() == q.last());
        assert(lines_of(a + b) =~= lines_of(a) + lines_of(b));
    }
}

/// Whitespace before a text does not matter to what is left of it when it is trimmed.
pub proof fn lemma_trimmed_after_spaces(pad: Seq<char>, s: Seq<char>)
    requires
        forall|i: int| 0 <= i < pad.len() ==> is_space(#[trigger] pad[i]),
    ensures
        trimmed(pad + s) == trimmed(s),
    decreases pad.len(),
{
    if pad.len() == 0 {
        assert(pad + s =~= s);
    } else {
        let rest = pad.skip(1);
        assert forall|i: int| 0 <= i < rest.len() implies is_space(#[trigger] rest[i]) by {
            assert(is_space(pad[i + 1]));
        }
        lemma_trimmed_after_spaces(rest, s);
        assert(is_space(pad[0]));
        assert((pad + s)[0] == pad[0]);
        assert((pad + s).skip(1) =~= rest + s);
    }
}

/// Whitespace is what Unicode calls so: the control characters from tab to carriage return and
/// next line, the space, the no-break space, and the spaces and separators of other scripts.
pub proof fn law_whitespace(c: char)
    ensures
        is_space(c) == (c == '\t' || c == '\n' || c == '\u{b}' || c == '\u{c}' || c == '\r' || c
            == ' ' || c == '\u{85}' || c == '\u{a0}' || c == '\u{1680}' || '\u{2000}' <= c
            <= '\u{200a}' || c == '\u{2028}' || c == '\u{2029}' || c == '\u{202f}' || c
            == '\u{205f}' || c == '\u{3000}'),
{
}

/// Whether a text is what stands at `i` in another, with nothing but whitespace around it.
pub open spec fn stands_alone_at(t: Seq<char>, s: Seq<char>, i: int) -> bool {
    &&& 0 <= i
    &&& i + t.len() <= s.len()
    &&& t == s.subrange(i, i + t.len())
    &&& forall|k: int| 0 <= k < i ==> is_space(#[trigger] s[k])
    &&& forall|k: int| i + t.len() <= k < s.len() ==> is_space(#[trigger] s[k])
}

/// Trimming takes away whitespace at both ends, all of it, and nothing else.
pub proof fn law_trimmed(s: Seq<char>)
    ensures
        exists|i: int| stands_alone_at(trimmed(s), s, i),
        trimmed(s).len() > 0 ==> !is_space(trimmed(s)[0]) && !is_space(trimmed(s).last()),
{
    let (t, n) = (trimmed_start(s), s.len() - trimmed_start(s).len());
    lemma_trimmed_start(s);
    lemma_trimmed_end(t);
    let u = trimmed_end(t);
    assert(u =~= s.subrange(n, n + u.len()));
    assert forall|k: int| n + u.len() <= k < s.len() implies is_space(#[trigger] s[k]) by {
        assert(s[k] == t[k - n]);
    }
    assert(stands_alone_at(trimmed(s), s, n));
}

proof fn lemma_trimmed_start(s: Seq<char>)
    ensures
        ({
            let n = s.len() - trimmed_start(s).len();
            &&& 0 <= n
            &&& trimmed_start(s) == s.skip(n)
            &&& forall|k: int| 0 <= k < n ==> is_space(#[trigger] s[k])
            &&& n < s.len() ==> !is_space(s[n])
        }),
    decreases s.len(),
{
    if s.len() > 0 && is_space(s[0]) {
        let r = s.skip(1);
        lemma_trimmed_start(r);
        let n = s.len() - trimmed_start(s).len();
        assert(trimmed_start(s) =~= s.skip(n));
        assert forall|k: int| 0 <= k < n implies is_space(#[trigger] s[k]) by {
            if k > 0 {
                assert(s[k] == r[k - 1]);
            }
        }
        if n < s.len() {
            assert(s[n] == r[n - 1]);
        }
    } else {
        assert(s.skip(0) =~= s);
    }
}

proof fn lemma_trimmed_end(s: Seq<char>)
    ensures
        ({
            let n = trimmed_end(s).len() as int;
            &&& n <= s.len()
            &&& trimmed_end(s) == s.take(n)
            &&& forall|k: int| n <= k < s.len() ==> is_space(#[trigger] s[k])
            &&& n > 0 ==> !is_space(s[n - 1])
        }),
    decreases s.len(),
{
    if s.len() > 0 && is_space(s.last()) {
        let r = s.drop_last();
        lemma_trimmed_end(r);
        let n = trimmed_end(s).len() as int;
        assert(trimmed_end(s) =~= s.take(n));
        assert forall|k: int| n <= k < s.len() implies is_space(#[trigger] s[k]) by {
            if k < s.len() - 1 {
                assert(s[k] == r[k]);
            }
        }
        if n > 0 {
            assert(s[n - 1] == r[n - 1]);
        }
    } else {
        assert(s.take(s.len() as int) =~= s);
    }
}

/// Texts put together again, with `c` between them.
pub open spec fn put_together(p: Seq<Seq<char>>, c: char) -> Seq<char>
    decreases p.len(),
{
    if p.len() == 0 {
        Seq::empty()
    } else if p.len() == 1 {
        p[0]
    } else {
        p[0] + seq![c] + put_together(p.skip(1), c)
    }
}

/// Splitting a text leaves nothing out: its pieces, put together again, are the text, and none
/// of them holds what it was split at.
pub proof fn law_pieces(s: Seq<char>, c: char)
    ensures
        pieces(s, c).len() > 0,
        put_together(pieces(s, c), c) == s,
        forall|i: int| 0 <= i < pieces(s, c).len() ==> !(#[trigger] pieces(s, c)[i]).contains(c),
    decreases s.len(),
{
    lemma_find_from(s, c, 0);
    let k = find_from(s, c, 0);
    let p = pieces(s, c);
    if k < s.len() {
        let (first, rest) = (s.take(k), s.skip(k + 1));
        law_pieces(rest, c);
        let q = pieces(rest, c);
        assert(p == seq![first] + q);
        assert(p.skip(1) =~= q);
        assert(first + seq![c] + rest =~= s);
        assert forall|i: int| 0 <= i < p.len() implies !(#[trigger] p[i]).contains(c) by {
            if i == 0 {
                assert(p[0] == first);
            } else {
                assert(p[i] == q[i - 1]);
            }
        }
    } else {
        assert(p == seq![s]);
    }
}

/// A line ends with a line feed, or with a carriage return and a line feed; what comes after
/// that are the lines that it has by itself. A text without a line feed is one line, as it is,
/// if there is anything in it.
pub proof fn law_line_ends(line: Seq<char>, rest: Seq<char>)
    requires
        !line.contains('\n'),
    ensures
        line.len() > 0 ==> lines_of(line) == seq![line],
        line.len() == 0 ==> lines_of(line) == Seq::<Seq<char>>::empty(),
        line.len() == 0 || line.last() != '\r' ==> lines_of(line + seq!['\n'] + rest) == seq![line]
            + lines_of(rest),
        lines_of(line + seq!['\r'] + seq!['\n'] + rest) == seq![line] + lines_of(rest),
{
    assert forall|i: int| 0 <= i < line.len() implies line[i] != '\n' by {
        assert(line.contains(line[i]));
    }
    lemma_one_piece(line, '\n');
    assert(pieces(line, '\n').last() == line);
    if line.len() > 0 {
        assert(lines_of(line) =~= seq![line]);
    } else {
        assert(lines_of(line) =~= Seq::<Seq<char>>::empty());
    }
    lemma_line_and_rest(line, rest);
    let other = line + seq!['\r'];
    lemma_line_and_rest(other, rest);
    assert(without_return(other) =~= line);
}

proof fn lemma_line_and_rest(line: Seq<char>, rest: Seq<char>)
    requires
        forall|i: int| 0 <= i < line.len() ==> line[i] != '\n',
    ensures
        lines_of(line + seq!['\n'] + rest) == seq![without_return(line)] + lines_of(rest),
{
    lemma_pieces_joined(line, '\n', rest);
    let (p, q) = (pieces(line + seq!['\n'] + rest, '\n'), pieces(rest, '\n'));
    assert(q.len() > 0);
    assert(p == seq![line] + q);
    assert(p.last() == q.last());
    assert(lines_of(line + seq!['\n'] + rest) =~= seq![without_return(line)] + lines_of(rest));
}

/// The words of a text are what whitespace, of any kind and length, parts.
pub proof fn law_words(pad: Seq<char>, word: Seq<char>, c: char, rest: Seq<char>)
    requires
        forall|i: int| 0 <= i < pad.len() ==> is_space(#[trigger] pad[i]),
        word.len() > 0,
        forall|i: int| 0 <= i < word.len() ==> !is_space(#[trigger] word[i]),
        is_space(c),
    ensures
        words_of(pad) == Seq::<Seq<char>>::empty(),
        words_of(pad + word) == seq![word],
        words_of(pad + word + seq![c] + rest) == seq![word] + words_of(rest),
    decreases pad.len(),
{
    let s = pad + word + seq![c] + rest;
    if pad.len() > 0 {
        let r = pad.skip(1);
        assert forall|i: int| 0 <= i < r.len() implies is_space(#[trigger] r[i]) by {
            assert(is_space(pad[i + 1]));
        }
        law_words(r, word, c, rest);
        assert(is_space(pad[0]));
        assert(s[0] == pad[0] && (pad + word)[0] == pad[0]);
        assert(s.skip(1) =~= r + word + seq![c] + rest);
        assert((pad + word).skip(1) =~= r + word);
    } else {
        assert(pad + word =~= word);
        lemma_one_word(word);
        assert(s =~= word + seq![c] + rest);
        lemma_space_from(s, 1);
        let k = space_from(s, 1);
        assert(s[0] == word[0]);
        assert(s[word.len() as int] == c);
        assert(k == word.len()) by {
            if k < word.len() {
                assert(s[k] == word[k]);
            }
        }
        assert(s.take(k) =~= word);
        let t = s.skip(k);
        assert(t[0] == c);
        assert(t.skip(1) =~= rest);
        assert(words_of(t) == words_of(rest));
        assert(!is_space(s[0]));
        assert(words_of(s) == seq![s.take(k)] + words_of(t));
    }
}

/// A text begins with another if it is that text and something after it.
pub proof fn law_begins(prefix: Seq<char>, rest: Seq<char>, s: Seq<char>)
    ensures
        begins(prefix + rest, prefix),
        begins(s, prefix) ==> s == prefix + s.skip(prefix.len() as int),
{
    assert((prefix + rest).take(prefix.len() as int) =~= prefix);
    if begins(s, prefix) {
        assert(s =~= s.take(prefix.len() as int) + s.skip(prefix.len() as int));
    }
}

/// Digits are those from `0` to `9`, and count in tens.
pub proof fn law_digits(s: Seq<char>, c: char)
    ensures
        is_digit(c) == ('0' <= c <= '9'),
        is_digit(c) ==> digit(c) == c as u32 - 48,
        digits_value(Seq::empty()) == 0,
        digits_value(s.push(c)) == 10 * digits_value(s) + digit(c),
        all_digits(s.push(c)) == (is_digit(c) && (s.len() == 0 || all_digits(s))),
        !all_digits(Seq::empty()),
{
    assert(s.push(c).drop_last() =~= s);
    if all_digits(s.push(c)) {
        assert(is_digit(s.push(c)[s.len() as int]));
        assert forall|i: int| 0 <= i < s.len() implies is_digit(#[trigger] s[i]) by {
            assert(is_digit(s.push(c)[i]));
        }
    }
}

/// An integer is read from digits, with a `+` before them or without, or with a `-` where there
/// are negative integers to read; from nothing else, and only if it is in the range.
pub proof fn law_parsed(s: Seq<char>, digits: Seq<char>, lo: int, hi: int)
    requires
        lo <= 0 <= hi,
    ensures
        all_digits(digits) ==> {
            let v = digits_value(digits) as int;
            &&& parsed(digits, lo, hi) == if v <= hi {
                Some(v)
            } else {
                None::<int>
            }
            &&& parsed(seq!['+'] + digits, lo, hi) == parsed(digits, lo, hi)
            &&& parsed(seq!['-'] + digits, lo, hi) == if lo < 0 && lo <= -v {
                Some(-v)
            } else {
                None::<int>
            }
        },
        parsed(s, lo, hi) is Some ==> lo <= parsed(s, lo, hi)->0 <= hi && (all_digits(s) || s.len()
            > 0 && all_digits(s.skip(1)) && (s[0] == '+' || s[0] == '-' && lo < 0)),
{
    if all_digits(digits) {
        let (p, m) = (seq!['+'] + digits, seq!['-'] + digits);
        assert(is_digit(digits[0]));
        assert(p.skip(1) =~= digits);
        assert(m.skip(1) =~= digits);
        assert(m[0] == '-' && !is_digit(m[0]));
    }
}

/// An integer is written down in decimal with the digits that count it and no more: no zero
/// comes first, but for zero itself, and a minus sign if it is negative.
pub proof fn law_decimal_form(v: int)
    ensures
        v >= 0 ==> all_digits(decimal_int(v)) && digits_value(decimal_int(v)) == v,
        v < 0 ==> decimal_int(v) == seq!['-'] + decimal_int(-v),
        v >= 10 ==> decimal_int(v)[0] != '0',
        0 <= v < 10 ==> decimal_int(v).len() == 1,
        v >= 0 ==> decimal(v as nat) == decimal_int(v),
    decreases
            if v < 0 {
                -v
            } else {
                v
            },
{
    if v >= 0 {
        lemma_decimal_digits(v as nat);
        if v >= 10 {
            law_decimal_form(v / 10);
            assert(decimal_int(v)[0] == decimal_int(v / 10)[0]);
            if v / 10 < 10 {
                let d = decimal((v / 10) as nat);
                assert(d == seq![digit_char((v / 10) as nat)]);
            }
        }
    }
}

/// Capital letters of ASCII become small ones, and nothing else changes.
pub proof fn law_lowered(s: Seq<char>, i: int)
    requires
        0 <= i < s.len(),
    ensures
        lowered(s).len() == s.len(),
        'A' <= s[i] <= 'Z' ==> lowered(s)[i] as u32 == s[i] as u32 + 32,
        !('A' <= s[i] <= 'Z') ==> lowered(s)[i] == s[i],
{
}

/// Whether the characters of a text from `a` up to `b` are digits.
pub open spec fn digits_between(s: Seq<char>, a: int, b: int) -> bool {
    forall|i: int| a <= i < b ==> '0' <= #[trigger] s[i] <= '9'
}

/// How many characters a sign takes at a place in a text: one or none.
pub open spec fn sign_at(s: Seq<char>, i: int) -> int {
    if 0 <= i < s.len() && (s[i] == '+' || s[i] == '-') {
        1
    } else {
        0
    }
}

/// Whether a text is a number of which the digits before the point end at `p`, and those after
/// it at `e`, where the exponent begins: there is at least one digit, there is a point if the
/// two ends differ, and the exponent, if there is one, is an `e` or `E`, a sign or none, and
/// digits.
pub open spec fn number_with(s: Seq<char>, p: int, e: int) -> bool {
    let b = sign_at(s, 0);
    &&& b <= p <= e <= s.len()
    &&& digits_between(s, b, p)
    &&& p < e ==> s[p] == '.' && digits_between(s, p + 1, e)
    &&& e - b > if p < e {
        1int
    } else {
        0int
    }
    &&& e < s.len() ==> {
        let f = e + 1 + sign_at(s, e + 1);
        (s[e] == 'e' || s[e] == 'E') && f < s.len() && digits_between(s, f, s.len() as int)
    }
}

/// Whether a text is a word in small or capital letters, with a sign before it or without.
pub open spec fn signed_word(s: Seq<char>, word: Seq<char>) -> bool {
    lowered(s) == word || lowered(s) == seq!['+'] + word || lowered(s) == seq!['-'] + word
}

/// The texts that write down a floating-point number are the decimal numbers, with a sign, a
/// point and an exponent or without, and the words for what is infinite or no number.
pub proof fn law_float(s: Seq<char>)
    ensures
        is_float(s) <==> (signed_word(s, "inf"@) || signed_word(s, "infinity"@) || signed_word(
            s,
            "nan"@,
        ) || exists|p: int, e: int| number_with(s, p, e)),
{
    reveal_strlit("inf");
    reveal_strlit("infinity");
    reveal_strlit("nan");
    lemma_signed_word(s, "inf"@);
    lemma_signed_word(s, "infinity"@);
    lemma_signed_word(s, "nan"@);
    if is_decimal_number(without_sign(lowered(s))) {
        lemma_number_has_form(s);
    }
    if exists|p: int, e: int| number_with(s, p, e) {
        let (p, e) = choose|p: int, e: int| number_with(s, p, e);
        lemma_number_is_read(s, p, e);
    }
}

proof fn lemma_number_has_form(s: Seq<char>)
    requires
        is_decimal_number(without_sign(lowered(s))),
    ensures
        exists|p: int, e: int| number_with(s, p, e),
{
    let l = lowered(s);
    let b = sign_at(s, 0);
    let t = without_sign(l);
    assert(b == sign_at(l, 0));
    assert(t =~= l.skip(b));
    lemma_find_from(t, 'e', 0);
    let i = find_from(t, 'e', 0);
    let m = t.take(i);
    assert(i == t.len() ==> m =~= t);
    assert(is_fixed_point(m));
    lemma_find_from(m, '.', 0);
    let k = find_from(m, '.', 0);
    let (p, e) = (b + k, b + i);
    let first = m.take(k);
    assert(k == m.len() ==> first =~= m);
    assert(only_digits(first));
    assert(digits_between(s, b, p)) by {
        assert forall|j: int| b <= j < p implies '0' <= #[trigger] s[j] <= '9' by {
            assert(first[j - b] == small(s[j]));
            assert(is_digit(first[j - b]));
        }
    }
    if p < e {
        assert(m[k] == small(s[p]));
        let r = m.skip(k + 1);
        assert(only_digits(r));
        assert(digits_between(s, p + 1, e)) by {
            assert forall|j: int| p + 1 <= j < e implies '0' <= #[trigger] s[j] <= '9' by {
                assert(r[j - p - 1] == small(s[j]));
                assert(is_digit(r[j - p - 1]));
            }
        }
    }
    if e < s.len() {
        assert(small(s[e]) == 'e');
        let x = t.skip(i + 1);
        let y = without_sign(x);
        assert(all_digits(y));
        let f = e + 1 + sign_at(s, e + 1);
        assert(x.len() > 0 ==> x[0] == small(s[e + 1]));
        assert(y =~= l.skip(f));
        assert(digits_between(s, f, s.len() as int)) by {
            assert forall|j: int| f <= j < s.len() implies '0' <= #[trigger] s[j] <= '9' by {
                assert(y[j - f] == small(s[j]));
                assert(is_digit(y[j - f]));
            }
        }
    }
    assert(number_with(s, p, e));
}

proof fn lemma_signed_word(s: Seq<char>, word: Seq<char>)
    requires
        word.len() > 0,
        word[0] != '+',
        word[0] != '-',
    ensures
        signed_word(s, word) == (without_sign(lowered(s)) == word),
{
    let l = lowered(s);
    let (p, m) = (seq!['+'] + word, seq!['-'] + word);
    assert(p.skip(1) =~= word && m.skip(1) =~= word);
    assert(p[0] == '+' && m[0] == '-');
    if without_sign(l) == word && l.len() > 0 && (l[0] == '+' || l[0] == '-') {
        assert(l =~= seq![l[0]] + l.skip(1));
    }
}

proof fn lemma_number_is_read(s: Seq<char>, p: int, e: int)
    requires
        number_with(s, p, e),
    ensures
        is_decimal_number(without_sign(lowered(s))),
{
    let l = lowered(s);
    let b = sign_at(s, 0);
    let t = without_sign(l);
    assert(b == sign_at(l, 0));
    assert(t =~= l.skip(b));
    assert forall|j: int| 0 <= j < e - b implies t[j] != 'e' && (is_digit(t[j]) || j == p - b && t[j]
        == '.') by {
        assert(t[j] == small(s[b + j]));
        if b + j < p {
            assert('0' <= s[b + j] <= '9');
        } else if b + j > p {
            assert('0' <= s[b + j] <= '9');
        }
    }
    lemma_find_from(t, 'e', 0);
    let i = find_from(t, 'e', 0);
    assert(i == e - b) by {
        if e < s.len() {
            assert(t[e - b] == 'e');
        }
        if i < e - b {
            assert(t[i] == 'e');
        }
    }
    let m = t.take(i);
    assert(i == t.len() ==> m =~= t);
    lemma_find_from(m, '.', 0);
    let k = find_from(m, '.', 0);
    assert(k == p - b) by {
        if k < p - b {
            assert(is_digit(t[k]));
        }
        if p < e {
            assert(m[p - b] == t[p - b]);
            assert(small(s[p]) == '.');
        }
    }
    if k < m.len() {
        assert forall|j: int| 0 <= j < k implies is_digit(#[trigger] m.take(k)[j]) by {
            assert(is_digit(t[j]));
        }
        let r = m.skip(k + 1);
        assert forall|j: int| 0 <= j < r.len() implies is_digit(#[trigger] r[j]) by {
            assert(r[j] == t[k + 1 + j]);
            assert(is_digit(t[k + 1 + j]));
        }
    } else {
        assert forall|j: int| 0 <= j < m.len() implies is_digit(#[trigger] m[j]) by {
            assert(is_digit(t[j]));
        }
    }
    assert(is_fixed_point(m));
    if e < s.len() {
        let x = t.skip(i + 1);
        let f = e + 1 + sign_at(s, e + 1);
        assert(x.len() > 0 ==> x[0] == small(s[e + 1]));
        let y = without_sign(x);
        assert(y =~= l.skip(f));
        assert forall|j: int| 0 <= j < y.len() implies is_digit(#[trigger] y[j]) by {
            assert(y[j] == small(s[f + j]));
            assert('0' <= s[f + j] <= '9');
        }
    }
}

/// What strings say, in their order.
pub proof fn law_texts(v: Seq<String>, i: int)
    requires
        0 <= i < v.len(),
    ensures
        texts(v).len() == v.len(),
        texts(v)[i] == v[i]@,
{
}

} // verus!
