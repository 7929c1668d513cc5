use logger_rs::format::{align_message, display_file, format_record, plain_text, LogRecord};
use logger_rs::level::{level_color, Color, Level};

fn record(level: Level, file: Option<&str>, line: Option<u32>, message: &str) -> LogRecord {
    LogRecord {
        level,
        file: file.map(|f| f.to_string()),
        line,
        message: message.to_string(),
    }
}

fn render(r: &LogRecord) -> String {
    plain_text(&format_record(r))
}

#[test]
fn single_line_message() {
    let r = record(Level::Info, Some("src/main.rs"), Some(42), "hello");
    assert_eq!(render(&r), "[INFO] main.rs:42 hello\n");
}

#[test]
fn multi_line_message_aligns_under_first_line() {
    let r = record(Level::Info, Some("src/main.rs"), Some(42), "a\nb\nc");
    let out = render(&r);
    let prefix = "[INFO] main.rs:42 ";
    let pad = " ".repeat(prefix.chars().count());
    assert_eq!(out, format!("{prefix}a\n{pad}b\n{pad}c\n"));
    let lines: Vec<&str> = out.lines().collect();
    assert_eq!(lines.len(), 3);
    assert_eq!(&lines[1][prefix.len()..], "b");
    assert_eq!(&lines[2][prefix.len()..], "c");
    assert!(lines[1][..prefix.len()].chars().all(|c| c == ' '));
    assert!(!out.ends_with("\n\n"));
}

#[test]
fn missing_file_and_line_use_sentinels() {
    let r = record(Level::Warn, None, None, "x");
    assert_eq!(render(&r), "[WARN] unknown:0 x\n");
}

#[test]
fn empty_message_is_a_single_line() {
    let r = record(Level::Error, Some("src/lib.rs"), Some(7), "");
    assert_eq!(render(&r), "[ERROR] lib.rs:7 \n");
}

#[test]
fn trailing_newline_leaves_no_blank_line() {
    let r = record(Level::Debug, Some("src/a.rs"), Some(3), "one\ntwo\n");
    let pad = " ".repeat("[DEBUG] a.rs:3 ".len());
    assert_eq!(render(&r), format!("[DEBUG] a.rs:3 one\n{pad}two\n"));
}

#[test]
fn interior_blank_line_is_kept() {
    let r = record(Level::Trace, Some("src/a.rs"), Some(10), "x\n\ny");
    let pad = " ".repeat("[TRACE] a.rs:10 ".len());
    assert_eq!(render(&r), format!("[TRACE] a.rs:10 x\n{pad}\n{pad}y\n"));
}

#[test]
fn large_line_number() {
    let r = record(Level::Info, Some("src/m.rs"), Some(u32::MAX), "m");
    assert_eq!(render(&r), "[INFO] m.rs:4294967295 m\n");
    let r = record(Level::Info, Some("src/m.rs"), Some(0), "m");
    assert_eq!(render(&r), "[INFO] m.rs:0 m\n");
}

#[test]
fn short_file_path_is_clamped_to_empty() {
    assert_eq!(display_file(Some("abc")), "");
    assert_eq!(display_file(Some("src/")), "");
    assert_eq!(display_file(Some("src/x.rs")), "x.rs");
    assert_eq!(display_file(None), "unknown");
    let r = record(Level::Info, Some("ab"), Some(1), "z");
    assert_eq!(render(&r), "[INFO] :1 z\n");
}

#[test]
fn file_prefix_counts_characters() {
    assert_eq!(display_file(Some("ééé/x.rs")), "x.rs");
}

#[test]
fn align_message_pads_each_continuation() {
    assert_eq!(align_message("p\nq", 3), "p\n   q");
    assert_eq!(align_message("p", 3), "p");
    assert_eq!(align_message("\n", 3), "");
    assert_eq!(align_message("", 3), "");
}

#[test]
fn segments_carry_colors() {
    let r = record(Level::Warn, Some("src/main.rs"), Some(5), "w");
    let segs = format_record(&r);
    assert_eq!(segs.len(), 9);
    assert_eq!(segs[1].text, "WARN");
    assert!(segs[1].color == Some(level_color(Level::Warn)));
    assert_eq!(segs[3].text, "main.rs");
    assert!(segs[3].color == Some(Color::Cyan));
    assert_eq!(segs[5].text, "5");
    assert!(segs[5].color == Some(Color::Magenta));
    assert!(segs[7].color.is_none());
    assert_eq!(segs[7].text, "w");
}

#[test]
fn no_escape_added_for_any_level() {
    let levels = [Level::Trace, Level::Debug, Level::Info, Level::Warn, Level::Error];
    for level in levels {
        let out = render(&record(level, Some("src/main.rs"), Some(42), "a\nb"));
        assert!(!out.contains('\u{1b}'));
        let out = render(&record(level, None, None, ""));
        assert!(!out.contains('\u{1b}'));
    }
}

#[test]
fn crlf_is_a_line_ending() {
    let r = record(Level::Info, Some("src/main.rs"), Some(42), "a\r\nb");
    let pad = " ".repeat("[INFO] main.rs:42 ".len());
    assert_eq!(render(&r), format!("[INFO] main.rs:42 a\n{pad}b\n"));
}

#[test]
fn final_crlf_leaves_no_blank_line() {
    let r = record(Level::Info, Some("src/main.rs"), Some(42), "a\r\n");
    assert_eq!(render(&r), "[INFO] main.rs:42 a\n");
    let r = record(Level::Info, Some("src/main.rs"), Some(42), "a\r\n\r\nb");
    let pad = " ".repeat("[INFO] main.rs:42 ".len());
    assert_eq!(render(&r), format!("[INFO] main.rs:42 a\n{pad}\n{pad}b\n"));
}

#[test]
fn lone_carriage_return_is_kept() {
    assert_eq!(align_message("a\rb", 2), "a\rb");
    assert_eq!(align_message("a\r", 2), "a\r");
    assert_eq!(align_message("\r\nx", 2), "\n  x");
}
