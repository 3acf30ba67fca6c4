use oc_sessions::display::{
    date_text, format_date, format_date_at, format_line, measure_columns, render_table, session_table, shorten_path,
    shorten_path_under, table_lines, timestamp_parts,
};
use oc_sessions::session::Session;

fn session(id: &str, title: &str, directory: &str, time_created: i64) -> Session {
    Session {
        id: id.to_string(),
        title: title.to_string(),
        directory: directory.to_string(),
        time_created,
        parent_id: None,
        last_input: String::new(),
    }
}

fn strings(v: &[&str]) -> Vec<String> {
    v.iter().map(|s| s.to_string()).collect()
}

#[test]
fn shorten_replaces_home_prefix() {
    let home = Some("/home/alice".to_string());
    assert_eq!(shorten_path_under("/home/alice/src/app", &home), "~/src/app");
    assert_eq!(shorten_path_under("/home/alice", &home), "~");
    assert_eq!(shorten_path_under("/tmp/x", &home), "/tmp/x");
    assert_eq!(shorten_path_under("/home/alicex/y", &home), "/home/alicex/y");
    assert_eq!(shorten_path_under("/home/al", &home), "/home/al");
}

#[test]
fn shorten_under_home_with_trailing_slash() {
    let root = Some("/".to_string());
    assert_eq!(shorten_path_under("/x", &root), "~x");
    assert_eq!(shorten_path_under("/", &root), "~");
    let home = Some("/home/u/".to_string());
    assert_eq!(shorten_path_under("/home/u/proj", &home), "~proj");
    assert_eq!(shorten_path_under("/home/u", &home), "/home/u");
    assert_eq!(shorten_path_under("/home/u2/x", &home), "/home/u2/x");
}

#[test]
fn shorten_without_home_keeps_path() {
    assert_eq!(shorten_path_under("/home/alice/src", &None), "/home/alice/src");
}

#[test]
fn shorten_path_uses_some_home() {
    let p = "/definitely/not/a/home/dir";
    let r = shorten_path(p);
    assert!(r == p || r.starts_with('~'));
}

#[test]
fn timestamp_parts_split_milliseconds() {
    assert_eq!(timestamp_parts(1_700_000_123_456), (1_700_000_123, 456_000_000));
    assert_eq!(timestamp_parts(0), (0, 0));
    assert_eq!(timestamp_parts(-1_000), (-1, 0));
    assert_eq!(timestamp_parts(-1), (-1, 999_000_000));
    assert_eq!(timestamp_parts(-1_500), (-2, 500_000_000));
}

fn date_shaped(s: &str) -> bool {
    let c: Vec<char> = s.chars().collect();
    c.len() == 16
        && c.iter().enumerate().all(|(i, ch)| match i {
            4 | 7 => *ch == '-',
            10 => *ch == ' ',
            13 => *ch == ':',
            _ => ch.is_ascii_digit(),
        })
}

#[test]
fn format_date_before_the_epoch_is_a_date() {
    assert!(date_shaped(&format_date(-1)));
    assert!(date_shaped(&format_date(-1_500)));
    // one millisecond before the epoch falls in the minute before it
    assert_ne!(format_date(-1), format_date(0));
    assert_eq!(format_date(-1), format_date(-60_000));
}

#[test]
fn format_date_renders_minutes() {
    let s = format_date(1_700_000_000_000);
    assert!(date_shaped(&s));
    assert!(date_shaped(&format_date(0)));
    assert!(date_shaped(&format_date(253_402_214_399_999)));
    assert!(date_shaped(&format_date(253_402_214_400_000)));
    let whole_second_before_epoch = format_date(-60_000);
    assert_ne!(whole_second_before_epoch, "unknown");
}

#[test]
fn format_date_unknown_out_of_range() {
    assert_eq!(format_date(i64::MAX), "unknown");
    assert_eq!(format_date(i64::MIN), "unknown");
    assert_eq!(format_date(9_000_000_000_001_000), "unknown");
    assert_eq!(format_date(8_210_266_876_800_000), "unknown");
    assert_eq!(format_date(-8_334_601_228_800_001), "unknown");
    assert_ne!(format_date(8_210_266_876_799_999), "unknown");
    assert_ne!(format_date(-8_334_601_228_800_000), "unknown");
}

#[test]
fn format_date_at_renders_at_the_offset() {
    assert_eq!(format_date_at(-1, 0), "1969-12-31 23:59");
    assert_eq!(format_date_at(0, 0), "1970-01-01 00:00");
    assert_eq!(format_date_at(0, 3_600), "1970-01-01 01:00");
    assert_eq!(format_date_at(0, -1_800), "1969-12-31 23:30");
    assert_eq!(format_date_at(1_700_000_000_000, 0), "2023-11-14 22:13");
    assert_eq!(format_date_at(1_700_000_039_999, 0), "2023-11-14 22:13");
    assert_eq!(format_date_at(-1_500, 0), "1969-12-31 23:59");
}

#[test]
fn format_date_at_calendar_edges() {
    assert_eq!(format_date_at(8_210_266_876_799_999, 0), "+262142-12-31 23:59");
    assert_eq!(format_date_at(8_210_266_876_800_000, 0), "unknown");
    assert_eq!(format_date_at(-8_334_601_228_800_000, 0), "-262143-01-01 00:00");
    assert_eq!(format_date_at(-8_334_601_228_800_001, 0), "unknown");
    assert_eq!(format_date_at(-62_167_219_200_000, 0), "0000-01-01 00:00");
    assert_eq!(format_date_at(253_402_300_799_999, 0), "9999-12-31 23:59");
}

#[test]
fn line_pads_cells_to_widths() {
    let cells = strings(&["ab", "c", "def"]);
    assert_eq!(format_line(&cells, &vec![4, 1, 5]), "ab    c  def  ");
    assert_eq!(format_line(&cells, &vec![1, 0, 3]), "ab  c  def");
}

#[test]
fn columns_are_as_wide_as_widest_bytes() {
    let headers = strings(&["Id", "Name"]);
    let rows = vec![strings(&["1", "caf\u{e9}"]), strings(&["12345", "x"])];
    assert_eq!(measure_columns(&headers, &rows), vec![5, 5]);
}

#[test]
fn table_has_header_rule_and_rows() {
    let headers = strings(&["Id", "Name"]);
    let rows = vec![strings(&["1", "bob"]), strings(&["123", "al"])];
    let lines = render_table(&headers, &rows);
    assert_eq!(
        lines,
        strings(&[
            "Id   Name",
            "\u{2500}\u{2500}\u{2500}\u{2500}\u{2500}\u{2500}\u{2500}\u{2500}\u{2500}",
            "1    bob ",
            "123  al  ",
        ])
    );
}

#[test]
fn table_pads_by_characters_but_measures_bytes() {
    let headers = strings(&["N"]);
    let rows = vec![strings(&["\u{e9}"]), strings(&["a"])];
    let lines = render_table(&headers, &rows);
    assert_eq!(lines, strings(&["N ", "\u{2500}\u{2500}", "\u{e9} ", "a "]));
}

#[test]
fn session_table_for_no_sessions() {
    assert_eq!(session_table(&vec![], &None, &vec![]), strings(&["No sessions found."]));
    assert_eq!(table_lines(&vec![]), strings(&["No sessions found."]));
}

#[test]
fn session_table_lays_out_sessions() {
    let sessions = vec![session("ses_1", "Fix bug", "/home/u/proj", 0)];
    let lines = session_table(&sessions, &Some("/home/u".to_string()), &strings(&["2024-01-01 10:00"]));
    assert_eq!(lines.len(), 3);
    assert_eq!(lines[0], "Session ID  Title    Directory  Date            ");
    assert_eq!(lines[2], "ses_1       Fix bug  ~/proj     2024-01-01 10:00");
    assert_eq!(lines[1].chars().count(), 10 + 2 + 7 + 2 + 9 + 2 + 16);
}

#[test]
fn table_lines_marks_unknown_dates() {
    let sessions = vec![session("a", "t", "/d", i64::MAX), session("b", "t", "/d", -5)];
    let lines = table_lines(&sessions);
    assert_eq!(lines.len(), 4);
    assert!(lines[2].ends_with("unknown         "));
    assert!(date_shaped(&lines[3][lines[3].len() - 16..]));
}

#[test]
fn ascii_table_lines_share_width() {
    let headers = strings(&["Session ID", "Title"]);
    let rows = vec![strings(&["a", "a much longer title"]), strings(&["identifier-123", ""])];
    let lines = render_table(&headers, &rows);
    let width = lines[1].chars().count();
    assert_eq!(width, 14 + 2 + 19);
    for line in &lines {
        assert_eq!(line.chars().count(), width);
    }
}

#[test]
fn date_text_falls_back_to_unknown() {
    assert_eq!(date_text(None), "unknown");
    assert_eq!(date_text(Some("2024-05-01 09:30".to_string())), "2024-05-01 09:30");
}

#[test]
fn table_lines_share_width_with_wide_characters() {
    let headers = strings(&["Titel", "Ort"]);
    let rows = vec![
        strings(&["caf\u{e9} \u{2603}", "\u{65e5}\u{672c}"]),
        strings(&["x", "/tmp/a"]),
    ];
    let lines = render_table(&headers, &rows);
    let width = lines[1].chars().count();
    // byte widths: "café ☃" is 9 bytes, "日本" is 6 bytes
    assert_eq!(width, 9 + 2 + 6);
    for line in &lines {
        assert_eq!(line.chars().count(), width);
    }
}
