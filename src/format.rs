use vstd::prelude::*;
use crate::level::{Level, Color, color_of, level_name, level_color};
use crate::text::{chars_of, push_char, push_spaces, push_decimal, spaces, decimal, digit_char};

verus! {

/// A log record as the formatter reads it.
pub struct LogRecord {
    pub level: Level,
    /// Source path of the call site, if known.
    pub file: Option<String>,
    /// Source line of the call site, if known.
    pub line: Option<u32>,
    pub message: String,
}

/// A run of output text, with the color it is drawn in, if any.
pub struct Segment {
    pub text: String,
    pub color: Option<Color>,
}

/// Path token shown when a record carries no file.
pub open spec fn unknown_path() -> Seq<char> {
    seq!['u', 'n', 'k', 'n', 'o', 'w', 'n']
}

/// Number of leading path characters dropped from a file name.
pub const STRIPPED_PREFIX: usize = 4;

/// The file as displayed: its first four characters dropped (empty when
/// it is shorter), or the `unknown` token when absent.
pub open spec fn file_display(file: Option<Seq<char>>) -> Seq<char> {
    match file {
        None => unknown_path(),
        Some(f) => if f.len() >= STRIPPED_PREFIX {
            f.subrange(STRIPPED_PREFIX as int, f.len() as int)
        } else {
            Seq::empty()
        },
    }
}

pub open spec fn file_view(file: Option<String>) -> Option<Seq<char>> {
    match file {
        None => None,
        Some(f) => Some(f@),
    }
}

/// The line number shown: the record's line, or 0 when absent.
pub open spec fn line_or_zero(line: Option<u32>) -> nat {
    match line {
        None => 0,
        Some(n) => n as nat,
    }
}

/// Uncolored prefix `"[LEVEL] file:line "`.
pub open spec fn prefix_text(level: Level, file: Option<Seq<char>>, line: nat) -> Seq<char> {
    seq!['['] + level_name(level) + seq![']', ' '] + file_display(file) + seq![':'] + decimal(line)
        + seq![' ']
}

/// The part of `s` before its final line ending, which is `"\r\n"` or
/// `"\n"`; `s` must end with `'\n'`.
pub open spec fn before_line_ending(s: Seq<char>) -> Seq<char> {
    if s.len() >= 2 && s[s.len() - 2] == '\r' {
        s.subrange(0, s.len() - 2)
    } else {
        s.drop_last()
    }
}

/// `s` with each line ending, `"\n"` or `"\r\n"`, turned into a newline
/// followed by `width` spaces, so that each continuation line starts in
/// column `width`.
pub open spec fn indent_lines(s: Seq<char>, width: nat) -> Seq<char>
    decreases s.len(),
{
    if s.len() == 0 {
        Seq::empty()
    } else if s.last() == '\n' {
        indent_lines(before_line_ending(s), width).push('\n') + spaces(width)
    } else {
        indent_lines(s.drop_last(), width).push(s.last())
    }
}

/// The message without its final line ending, so that it ends no blank line.
pub open spec fn trim_final_newline(m: Seq<char>) -> Seq<char> {
    if m.len() > 0 && m.last() == '\n' {
        before_line_ending(m)
    } else {
        m
    }
}

/// The message body as rendered after a prefix of `width` characters.
pub open spec fn message_body(m: Seq<char>, width: nat) -> Seq<char> {
    indent_lines(trim_final_newline(m), width)
}

/// The complete uncolored output for one record, with its line terminator.
pub open spec fn rendered(
    level: Level,
    file: Option<Seq<char>>,
    line: nat,
    message: Seq<char>,
) -> Seq<char> {
    let prefix = prefix_text(level, file, line);
    prefix + message_body(message, prefix.len()) + seq!['\n']
}

pub open spec fn record_rendered(r: LogRecord) -> Seq<char> {
    rendered(r.level, file_view(r.file), line_or_zero(r.line), r.message@)
}

/// Concatenated text of the segments, colors left out.
pub open spec fn segments_text(segs: Seq<Segment>) -> Seq<char>
    decreases segs.len(),
{
    if segs.len() == 0 {
        Seq::empty()
    } else {
        segments_text(segs.drop_last()) + segs.last().text@
    }
}

pub open spec fn segment_is(s: Segment, text: Seq<char>, color: Option<Color>) -> bool {
    s.text@ == text && s.color == color
}

/// `s` holds no escape character (U+001B), the one that starts every
/// terminal color sequence.
pub open spec fn is_escape_free(s: Seq<char>) -> bool {
    forall|i: int| 0 <= i < s.len() ==> s[i] != '\u{1b}'
}

proof fn lemma_decimal_escape_free(n: nat)
    ensures
        is_escape_free(decimal(n)),
    decreases n,
{
    if n >= 10 {
        lemma_decimal_escape_free(n / 10);
        assert((n % 10) + 48 < 58);
    }
}

proof fn lemma_indent_escape_free(s: Seq<char>, width: nat)
    requires
        is_escape_free(s),
    ensures
        is_escape_free(indent_lines(s, width)),
    decreases s.len(),
{
    if s.len() > 0 {
        if s.last() == '\n' {
            lemma_indent_escape_free(before_line_ending(s), width);
        } else {
            lemma_indent_escape_free(s.drop_last(), width);
        }
    }
}

/// Formatting adds no escape character of its own: when neither the
/// message nor the file holds one, the uncolored output holds none, for
/// every level. Escape sequences come only from drawing the colored
/// segments, which the output backend omits when styling is off.
pub proof fn lemma_uncolored_output_escape_free(
    level: Level,
    file: Option<Seq<char>>,
    line: nat,
    message: Seq<char>,
)
    requires
        is_escape_free(message),
        file matches Some(f) ==> is_escape_free(f),
    ensures
        is_escape_free(rendered(level, file, line, message)),
{
    lemma_decimal_escape_free(line);
    let prefix = prefix_text(level, file, line);
    let t = trim_final_newline(message);
    assert(is_escape_free(t));
    lemma_indent_escape_free(t, prefix.len());
    assert(is_escape_free(level_name(level)));
    assert(is_escape_free(file_display(file)));
    assert(is_escape_free(unknown_path()));
    let r = rendered(level, file, line, message);
    assert forall|i: int| 0 <= i < r.len() implies r[i] != '\u{1b}' by {
        let body = message_body(message, prefix.len());
        if i >= prefix.len() && i < prefix.len() + body.len() {
            assert(r[i] == body[i - prefix.len()]);
        }
    }
}

/// A record without file and line renders the prefix
/// `"[LEVEL] unknown:0 "`, whatever its level and message.
pub proof fn lemma_missing_metadata_prefix(level: Level, message: Seq<char>)
    ensures
        rendered(level, None, 0, message).subrange(0, prefix_text(level, None, 0).len() as int)
            == seq!['['] + level_name(level) + seq![']', ' '] + unknown_path() + seq![':', '0', ' '],
{
    let p = prefix_text(level, None, 0);
    assert(decimal(0) == seq![digit_char(0)]);
    assert(digit_char(0) == '0');
    assert(rendered(level, None, 0, message).subrange(0, p.len() as int) =~= p);
    assert(p =~= seq!['['] + level_name(level) + seq![']', ' '] + unknown_path() + seq![':', '0', ' ']);
}

/// The display form of a file path.
pub fn display_file(file: Option<&str>) -> (r: String)
    ensures
        r@ == file_display(
            match file {
                None => None,
                Some(f) => Some(f@),
            },
        ),
{
    match file {
        None => {
            proof {
                reveal_strlit("unknown");
            }
            String::from_str("unknown")
        },
        Some(f) => {
            let n = f.unicode_len();
            if n >= STRIPPED_PREFIX {
                String::from_str(f.substring_char(STRIPPED_PREFIX, n))
            } else {
                String::new()
            }
        },
    }
}

/// Renders a message body after a prefix `width` characters wide: the
/// final line ending is dropped and each remaining one, `"\n"` or
/// `"\r\n"`, becomes a newline followed by `width` spaces.
pub fn align_message(message: &str, width: usize) -> (r: String)
    ensures
        r@ == message_body(message@, width as nat),
{
    let chars = chars_of(message);
    let mut end = chars.len();
    if end > 0 && chars[end - 1] == '\n' {
        end = end - 1;
        if end > 0 && chars[end - 1] == '\r' {
            end = end - 1;
        }
    }
    let ghost m = trim_final_newline(message@);
    assert(m =~= chars@.subrange(0, end as int));
    let mut out = String::new();
    let mut i: usize = 0;
    while i < end
        invariant
            end <= chars@.len(),
            m == chars@.subrange(0, end as int),
            i <= end,
            0 < i < end ==> !(chars@[i - 1] == '\r' && chars@[i as int] == '\n'),
            out@ == indent_lines(chars@.subrange(0, i as int), width as nat),
        decreases end - i,
    {
        let c = chars[i];
        if c == '\r' && i + 1 < end && chars[i + 1] == '\n' {
            assert(before_line_ending(chars@.subrange(0, i + 2)) =~= chars@.subrange(0, i as int));
            push_char(&mut out, '\n');
            push_spaces(&mut out, width);
            i = i + 2;
        } else {
            assert(chars@.subrange(0, i + 1).drop_last() =~= chars@.subrange(0, i as int));
            if c == '\n' {
                assert(before_line_ending(chars@.subrange(0, i + 1)) =~= chars@.subrange(
                    0,
                    i as int,
                ));
                push_char(&mut out, '\n');
                push_spaces(&mut out, width);
            } else {
                push_char(&mut out, c);
            }
            i = i + 1;
        }
    }
    assert(chars@.subrange(0, end as int) =~= m);
    out
}

proof fn lemma_segments_text_push(segs: Seq<Segment>, s: Segment)
    ensures
        segments_text(segs.push(s)) == segments_text(segs) + s.text@,
{
    assert(segs.push(s).drop_last() =~= segs);
}

/// Appends a segment of `text` drawn in `color`.
fn push_segment(segs: &mut Vec<Segment>, text: String, color: Option<Color>)
    ensures
        final(segs)@.len() == old(segs)@.len() + 1,
        forall|i: int| 0 <= i < old(segs)@.len() ==> final(segs)@[i] == old(segs)@[i],
        segment_is(final(segs)@[old(segs)@.len() as int], text@, color),
        segments_text(final(segs)@) == segments_text(old(segs)@) + text@,
{
    let seg = Segment { text, color };
    proof {
        lemma_segments_text_push(segs@, seg);
    }
    segs.push(seg);
}

/// Formats one record: the level name in the level's color, the file in
/// cyan, the line number in magenta, and the aligned message uncolored.
pub fn format_record(record: &LogRecord) -> (r: Vec<Segment>)
    ensures
        r@.len() == 9,
        segment_is(r@[0], seq!['['], None),
        segment_is(r@[1], level_name(record.level), Some(color_of(record.level))),
        segment_is(r@[2], seq![']', ' '], None),
        segment_is(r@[3], file_display(file_view(record.file)), Some(Color::Cyan)),
        segment_is(r@[4], seq![':'], None),
        segment_is(r@[5], decimal(line_or_zero(record.line)), Some(Color::Magenta)),
        segment_is(r@[6], seq![' '], None),
        segment_is(
            r@[7],
            message_body(
                record.message@,
                prefix_text(record.level, file_view(record.file), line_or_zero(record.line)).len(),
            ),
            None,
        ),
        segment_is(r@[8], seq!['\n'], None),
        segments_text(r@) == record_rendered(*record),
{
    let ghost file = file_view(record.file);
    let ghost line = line_or_zero(record.line);
    let name = record.level.as_str();
    let file_text = match &record.file {
        None => display_file(None),
        Some(f) => display_file(Some(f.as_str())),
    };
    let line_num: u32 = match record.line {
        None => 0,
        Some(n) => n,
    };
    let mut line_text = String::new();
    push_decimal(&mut line_text, line_num);

    let mut open = String::new();
    push_char(&mut open, '[');
    let mut close = String::new();
    push_char(&mut close, ']');
    push_char(&mut close, ' ');
    assert(close@ =~= seq![']', ' ']);
    let mut colon = String::new();
    push_char(&mut colon, ':');
    let mut space = String::new();
    push_char(&mut space, ' ');
    let mut newline = String::new();
    push_char(&mut newline, '\n');

    let mut prefix = String::new();
    prefix.append(open.as_str());
    prefix.append(name);
    prefix.append(close.as_str());
    prefix.append(file_text.as_str());
    prefix.append(colon.as_str());
    prefix.append(line_text.as_str());
    prefix.append(space.as_str());
    assert(prefix@ =~= prefix_text(record.level, file, line));
    let width = prefix.as_str().unicode_len();
    let body = align_message(record.message.as_str(), width);

    let mut segs: Vec<Segment> = Vec::new();
    push_segment(&mut segs, open, None);
    push_segment(&mut segs, String::from_str(name), Some(level_color(record.level)));
    push_segment(&mut segs, close, None);
    push_segment(&mut segs, file_text, Some(Color::Cyan));
    push_segment(&mut segs, colon, None);
    push_segment(&mut segs, line_text, Some(Color::Magenta));
    push_segment(&mut segs, space, None);
    push_segment(&mut segs, body, None);
    push_segment(&mut segs, newline, None);
    assert(segments_text(segs@) =~= record_rendered(*record));
    segs
}

/// The output as plain text: the segments' texts in order.
pub fn plain_text(segments: &Vec<Segment>) -> (r: String)
    ensures
        r@ == segments_text(segments@),
{
    let mut out = String::new();
    let mut i: usize = 0;
    while i < segments.len()
        invariant
            i <= segments@.len(),
            out@ == segments_text(segments@.subrange(0, i as int)),
        decreases segments@.len() - i,
    {
        assert(segments@.subrange(0, i + 1).drop_last() =~= segments@.subrange(0, i as int));
        out.append(segments[i].text.as_str());
        i = i + 1;
    }
    assert(segments@.subrange(0, i as int) =~= segments@);
    out
}

} // verus!
