use vstd::prelude::*;
use vstd::string::*;
use crate::session::Session;
use crate::text::{append_repeated, repeated, starts_with, text_from};
use chrono::{DateTime, FixedOffset, Local};

verus! {

/// What `DateTime::from_timestamp(secs, nanos)`, seen at the fixed UTC
/// offset of `offset` seconds, renders with `format(pattern)`; `None` where
/// `from_timestamp` has no instant.
pub uninterp spec fn rendered_at(secs: i64, nanos: u32, offset: i32, pattern: Seq<char>) -> Option<Seq<char>>;

/// A text of the shape `YYYY-MM-DD HH:MM`: sixteen characters, digits but
/// for the dashes, the space and the colon.
pub open spec fn date_shape(s: Seq<char>) -> bool {
    &&& s.len() == 16
    &&& forall|i: int|
        0 <= i < 16 && i != 4 && i != 7 && i != 10 && i != 13 ==> '0' <= #[trigger] s[i] <= '9'
    &&& s[4] == '-' && s[7] == '-' && s[10] == ' ' && s[13] == ':'
}

/// The pattern in which dates are shown: year, month, day, hour, minute.
pub open spec fn date_pattern() -> Seq<char> {
    "%Y-%m-%d %H:%M"@
}

/// A strftime pattern whose every `%` starts one of the fields `%Y`, `%m`,
/// `%d`, `%H`, `%M`; the other characters stand for themselves.
pub open spec fn plain_pattern(p: Seq<char>) -> bool {
    forall|i: int|
        0 <= i < p.len() && #[trigger] p[i] == '%' ==> i + 1 < p.len() && (p[i + 1] == 'Y' || p[i
            + 1] == 'm' || p[i + 1] == 'd' || p[i + 1] == 'H' || p[i + 1] == 'M')
}

/// The seconds of the first instant the calendar has: January 1 of year
/// -262 143, midnight UTC.
pub open spec fn first_calendar_second() -> int {
    -8_334_601_228_800
}

/// The seconds of the last whole second the calendar has: December 31 of
/// year 262 142, 23:59:59 UTC.
pub open spec fn last_calendar_second() -> int {
    8_210_266_876_799
}

/// Whether `DateTime::from_timestamp(secs, nanos)` has an instant: the
/// day lies in the calendar's range, and the nanoseconds stay below one
/// second, or below two in the 59th second of a minute (a leap second).
pub open spec fn has_instant(secs: i64, nanos: u32) -> bool {
    &&& first_calendar_second() <= secs <= last_calendar_second()
    &&& nanos < 2_000_000_000
    &&& nanos >= 1_000_000_000 ==> secs % 60 == 59
}

/// `DateTime::from_timestamp(secs, nanos)` seen at the fixed offset
/// `FixedOffset::east_opt(offset)` and rendered with `format(pattern)`. The
/// result is named `rendered_at`. The source of `from_timestamp` shows when
/// it has an instant (`has_instant`: `NaiveDate` spans January 1 of year
/// -262 143 to December 31 of year 262 142), and `east_opt` accepts every
/// offset within a day. A pattern of the plain fields parses without error,
/// so rendering does not fail. For the date pattern each field is
/// zero-padded, and `%Y` writes at least four digits (with a sign outside
/// years 0 to 9999): the text has at least sixteen characters, and the date
/// shape where the local year lies in 0 to 9999, as it does for every
/// offset within a day from second -62 167 132 800 to 253 402 214 400.
#[verifier::external_body]
fn render_instant(secs: i64, nanos: u32, offset: i32, pattern: &str) -> (r: Option<String>)
    requires
        -86_400 < offset < 86_400,
        plain_pattern(pattern@),
    ensures
        opt_text(r) == rendered_at(secs, nanos, offset, pattern@),
        r is Some <==> has_instant(secs, nanos),
        pattern@ == date_pattern() && r is Some ==> r->0@.len() >= 16,
        pattern@ == date_pattern() && r is Some && -62_167_132_800 <= secs <= 253_402_214_400
            ==> date_shape(r->0@),
{
    match (DateTime::from_timestamp(secs, nanos), FixedOffset::east_opt(offset)) {
        (Some(dt), Some(zone)) => Some(dt.with_timezone(&zone).format(pattern).to_string()),
        _ => None,
    }
}

/// The machine's local UTC offset, in seconds, at the instant `secs`
/// seconds after the epoch (`Local` seen through `with_timezone`); `None`
/// where `DateTime::from_timestamp(secs, 0)` has no instant. The offset
/// depends on the machine's time zone; the source shows only that an offset
/// lies strictly within a day.
#[verifier::external_body]
fn local_offset_at(secs: i64) -> (r: Option<i32>)
    ensures
        r matches Some(offset) ==> -86_400 < offset < 86_400,
{
    match DateTime::from_timestamp(secs, 0) {
        Some(dt) => Some(dt.with_timezone(&Local).offset().local_minus_utc()),
        None => None,
    }
}

/// `dirs::home_dir()`, as text (lossily converted). It reads the
/// environment, so nothing is stated of what it gives.
#[verifier::external_body]
pub(crate) fn home_dir_text() -> Option<String> {
    match dirs::home_dir() {
        Some(home) => Some(home.to_string_lossy().into_owned()),
        None => None,
    }
}

/// Whole seconds of a millisecond count, rounded down.
pub open spec fn whole_seconds(epoch_ms: i64) -> int {
    epoch_ms / 1000
}

/// The nanoseconds past `whole_seconds`: always below one second.
pub open spec fn nanos_field(epoch_ms: i64) -> u32 {
    ((epoch_ms % 1000) * 1_000_000) as u32
}

/// Splits epoch milliseconds into the seconds (rounded down) and the
/// nanoseconds past them, so that an instant before the epoch is a second
/// before it plus a positive fraction.
pub fn timestamp_parts(epoch_ms: i64) -> (r: (i64, u32))
    ensures
        r.0 == whole_seconds(epoch_ms),
        r.1 == nanos_field(epoch_ms),
        r.1 < 1_000_000_000,
{
    let mut secs = epoch_ms / 1000;
    let mut rem = epoch_ms % 1000;
    if rem < 0 {
        secs = secs - 1;
        rem = rem + 1000;
    }
    assert(secs == whole_seconds(epoch_ms) && rem == epoch_ms % 1000);
    let nanos: u32 = (rem as u32) * 1_000_000;
    (secs, nanos)
}

/// The text shown for a date: the calendar's text, or `"unknown"` when the
/// calendar has no such instant.
pub open spec fn date_or_unknown(local: Option<Seq<char>>) -> Seq<char> {
    match local {
        Some(text) => text,
        None => "unknown"@,
    }
}

/// The text shown for a date, given what the calendar rendered.
pub fn date_text(local: Option<String>) -> (r: String)
    ensures
        r@ == date_or_unknown(opt_text(local)),
{
    proof {
        reveal_strlit("unknown");
    }
    match local {
        Some(text) => text,
        None => text_from("unknown"),
    }
}

/// The text shown for the instant `epoch_ms` at the UTC offset `offset`.
pub open spec fn date_at(epoch_ms: i64, offset: i32) -> Seq<char> {
    date_or_unknown(
        rendered_at(whole_seconds(epoch_ms) as i64, nanos_field(epoch_ms), offset, date_pattern()),
    )
}

/// `text` is what the calendar shows for `epoch_ms` at some UTC offset
/// within a day: the machine's time zone decides which.
pub open spec fn is_date_of(text: Seq<char>, epoch_ms: i64) -> bool {
    exists|offset: i32| -86_400 < offset < 86_400 && text == #[trigger] date_at(epoch_ms, offset)
}

/// Whether the calendar has the second that `epoch_ms` falls in.
pub open spec fn in_calendar(epoch_ms: i64) -> bool {
    first_calendar_second() <= whole_seconds(epoch_ms) <= last_calendar_second()
}

/// Format epoch milliseconds as a date to the minute at the UTC offset
/// `offset` (in seconds), or `"unknown"` where the calendar has no such
/// instant.
pub fn format_date_at(epoch_ms: i64, offset: i32) -> (r: String)
    requires
        -86_400 < offset < 86_400,
    ensures
        r@ == date_at(epoch_ms, offset),
        r@ == "unknown"@ <==> !in_calendar(epoch_ms),
        -62_167_132_800_000 <= epoch_ms <= 253_402_214_400_000 ==> date_shape(r@),
{
    let (secs, nanos) = timestamp_parts(epoch_ms);
    proof {
        reveal_strlit("%Y-%m-%d %H:%M");
        reveal_strlit("unknown");
        let p = date_pattern();
        assert forall|i: int| 0 <= i < p.len() && #[trigger] p[i] == '%' implies i + 1 < p.len() && (
        p[i + 1] == 'Y' || p[i + 1] == 'm' || p[i + 1] == 'd' || p[i + 1] == 'H' || p[i + 1] == 'M')
            by {
            assert(i == 0 || i == 3 || i == 6 || i == 9 || i == 12);
        }
    }
    let local = render_instant(secs, nanos, offset, "%Y-%m-%d %H:%M");
    let r = date_text(local);
    proof {
        if local is Some {
            assert(r@.len() >= 16);
            assert(r@ != "unknown"@);
        }
    }
    r
}

/// Format epoch milliseconds as a local date to the minute, or `"unknown"`
/// where the calendar has no such instant.
pub fn format_date(epoch_ms: i64) -> (r: String)
    ensures
        is_date_of(r@, epoch_ms),
        r@ == "unknown"@ <==> !in_calendar(epoch_ms),
        -62_167_132_800_000 <= epoch_ms <= 253_402_214_400_000 ==> date_shape(r@),
{
    let (secs, _nanos) = timestamp_parts(epoch_ms);
    let offset = match local_offset_at(secs) {
        Some(offset) => offset,
        None => 0,
    };
    format_date_at(epoch_ms, offset)
}

/// `path` is the home directory `h` or lies inside it: it is `h`, or it
/// continues `h` with `/`, or `h` itself ends in `/` and starts `path`.
pub open spec fn under_home(path: Seq<char>, h: Seq<char>) -> bool {
    ||| path == h
    ||| (h + seq!['/']).is_prefix_of(path)
    ||| h.len() > 0 && h.last() == '/' && h.is_prefix_of(path)
}

/// `path` with the home directory replaced by `~` where it lies under it.
/// Other paths stay as they are.
pub open spec fn shortened(path: Seq<char>, home: Option<Seq<char>>) -> Seq<char> {
    match home {
        Some(h) => if under_home(path, h) {
            seq!['~'] + path.skip(h.len() as int)
        } else {
            path
        },
        None => path,
    }
}

/// The view of an optional text.
pub open spec fn opt_text(s: Option<String>) -> Option<Seq<char>> {
    match s {
        Some(t) => Some(t@),
        None => None,
    }
}

/// Shorten `path` by replacing the given home directory with `~`.
pub fn shorten_path_under(path: &str, home: &Option<String>) -> (r: String)
    ensures
        r@ == shortened(path@, opt_text(*home)),
{
    match home {
        Some(h) => {
            let n = path.unicode_len();
            let hn = h.as_str().unicode_len();
            let inside = if starts_with(path, h.as_str()) {
                n == hn || path.get_char(hn) == '/' || (hn > 0 && h.as_str().get_char(hn - 1) == '/')
            } else {
                false
            };
            proof {
                if (h@ + seq!['/']).is_prefix_of(path@) {
                    assert(h@.is_prefix_of(path@)) by {
                        assert forall|i: int| 0 <= i < h@.len() implies h@[i] == path@[i] by {
                            assert((h@ + seq!['/'])[i] == h@[i]);
                        }
                    }
                    assert((h@ + seq!['/'])[hn as int] == '/');
                }
                if h@.is_prefix_of(path@) && n > hn && path@[hn as int] == '/' {
                    assert(path@.take(hn + 1) =~= h@ + seq!['/']);
                }
                if h@.is_prefix_of(path@) && n == hn {
                    assert(path@ =~= h@);
                }
                if path@ == h@ {
                    assert(h@.is_prefix_of(path@));
                }
            }
            if inside {
                let rest = path.substring_char(hn, n);
                let mut out = text_from("~");
                out.append(rest);
                proof {
                    reveal_strlit("~");
                }
                assert(out@ =~= seq!['~'] + path@.skip(h@.len() as int));
                out
            } else {
                text_from(path)
            }
        },
        None => text_from(path),
    }
}

/// Shorten an absolute path by replacing the user's home directory prefix
/// with `~`.
pub fn shorten_path(path: &str) -> (r: String)
    ensures
        exists|home: Option<Seq<char>>| r@ == shortened(path@, home),
{
    let home = home_dir_text();
    let r = shorten_path_under(path, &home);
    assert(r@ == shortened(path@, opt_text(home)));
    r
}

/// The texts held by a vector of strings.
pub open spec fn texts(v: Seq<String>) -> Seq<Seq<char>> {
    v.map_values(|s: String| s@)
}

/// The texts held by a table of strings, row by row.
pub open spec fn table_texts(rows: Seq<Vec<String>>) -> Seq<Seq<Seq<char>>> {
    rows.map_values(|r: Vec<String>| texts(r@))
}

/// The length in bytes of a text's UTF-8 encoding, as `str::len` gives it.
pub open spec fn byte_len(s: Seq<char>) -> usize {
    vstd::utf8::encode_utf8(s).len() as usize
}

/// The width of column `c`: the byte length of its longest entry, the
/// header included.
pub open spec fn column_width(header: Seq<char>, rows: Seq<Seq<Seq<char>>>, c: int) -> usize
    decreases rows.len(),
{
    if rows.len() == 0 {
        byte_len(header)
    } else {
        let w = column_width(header, rows.drop_last(), c);
        let here = byte_len(rows.last()[c]);
        if w >= here {
            w
        } else {
            here
        }
    }
}

/// The widths of all columns.
pub open spec fn column_widths(headers: Seq<Seq<char>>, rows: Seq<Seq<Seq<char>>>) -> Seq<usize> {
    Seq::new(headers.len(), |c: int| column_width(headers[c], rows, c))
}

/// A cell left-aligned in `width` characters: spaces are added behind a
/// cell of fewer characters.
pub open spec fn padded(cell: Seq<char>, width: usize) -> Seq<char> {
    if cell.len() < width {
        cell + repeated(' ', (width - cell.len()) as nat)
    } else {
        cell
    }
}

/// Cells padded to their column widths and joined by two spaces.
pub open spec fn table_line(cells: Seq<Seq<char>>, widths: Seq<usize>) -> Seq<char>
    decreases cells.len(),
{
    if cells.len() == 0 {
        Seq::empty()
    } else if cells.len() == 1 {
        padded(cells[0], widths[0])
    } else {
        table_line(cells.drop_last(), widths) + seq![' ', ' '] + padded(
            cells.last(),
            widths[cells.len() - 1],
        )
    }
}

/// The sum of the column widths.
pub open spec fn width_sum(widths: Seq<usize>) -> int
    decreases widths.len(),
{
    if widths.len() == 0 {
        0
    } else {
        width_sum(widths.drop_last()) + widths.last()
    }
}

/// The width of a whole line: all columns and the two-space gaps between them.
pub open spec fn line_width(widths: Seq<usize>) -> int {
    width_sum(widths) + 2 * (widths.len() - 1)
}

/// The rule under the header: a box-drawing line as wide as a whole line.
pub open spec fn separator(widths: Seq<usize>) -> Seq<char> {
    repeated('\u{2500}', line_width(widths) as nat)
}

/// Appends `cell` left-aligned in `width` characters.
fn append_padded(out: &mut String, cell: &str, width: usize)
    ensures
        final(out)@ == old(out)@ + padded(cell@, width),
{
    out.append(cell);
    let n = cell.unicode_len();
    if n < width {
        proof {
            reveal_strlit(" ");
        }
        append_repeated(out, " ", (width - n) as u128);
    } else {
        assert(out@ =~= old(out)@ + padded(cell@, width));
    }
    proof {
        if n < width {
            assert(out@ =~= old(out)@ + padded(cell@, width));
        }
    }
}

/// One line of the table: `cells` padded to `widths`, two spaces apart.
pub fn format_line(cells: &Vec<String>, widths: &Vec<usize>) -> (r: String)
    requires
        cells.len() == widths.len(),
        cells.len() >= 1,
    ensures
        r@ == table_line(texts(cells@), widths@),
{
    let ghost cs = texts(cells@);
    let mut out = String::new();
    append_padded(&mut out, cells[0].as_str(), widths[0]);
    assert(cs.take(1).drop_last() =~= Seq::<Seq<char>>::empty());
    assert(out@ =~= table_line(cs.take(1), widths@));
    let mut k: usize = 1;
    while k < cells.len()
        invariant
            cells.len() == widths.len(),
            1 <= k <= cells.len(),
            cs == texts(cells@),
            out@ == table_line(cs.take(k as int), widths@),
        decreases cells.len() - k,
    {
        proof {
            reveal_strlit("  ");
        }
        out.append("  ");
        append_padded(&mut out, cells[k].as_str(), widths[k]);
        assert(cs.take(k + 1).drop_last() =~= cs.take(k as int));
        assert(out@ =~= table_line(cs.take(k + 1), widths@));
        k = k + 1;
    }
    assert(cs.take(k as int) =~= cs);
    out
}


/// The widths of the table's columns, the header row included.
pub fn measure_columns(headers: &Vec<String>, rows: &Vec<Vec<String>>) -> (r: Vec<usize>)
    requires
        forall|i: int| 0 <= i < rows.len() ==> (#[trigger] rows@[i]).len() == headers.len(),
    ensures
        r@ == column_widths(texts(headers@), table_texts(rows@)),
{
    let ghost hs = texts(headers@);
    let ghost rs = table_texts(rows@);
    let mut widths: Vec<usize> = Vec::new();
    let mut c: usize = 0;
    while c < headers.len()
        invariant
            c <= headers.len(),
            hs == texts(headers@),
            rs == table_texts(rows@),
            forall|i: int| 0 <= i < rows.len() ==> (#[trigger] rows@[i]).len() == headers.len(),
            widths@ == column_widths(hs, rs).take(c as int),
        decreases headers.len() - c,
    {
        let mut w = headers[c].as_str().len();
        assert(w == column_width(hs[c as int], rs.take(0), c as int));
        let mut i: usize = 0;
        while i < rows.len()
            invariant
                c < headers.len(),
                i <= rows.len(),
                hs == texts(headers@),
                rs == table_texts(rows@),
                forall|i: int| 0 <= i < rows.len() ==> (#[trigger] rows@[i]).len() == headers.len(),
                w == column_width(hs[c as int], rs.take(i as int), c as int),
            decreases rows.len() - i,
        {
            let l = rows[i][c].as_str().len();
            assert(rs.take(i + 1).drop_last() =~= rs.take(i as int));
            assert(rs[i as int][c as int] == rows@[i as int]@[c as int]@);
            if l > w {
                w = l;
            }
            i = i + 1;
        }
        assert(rs.take(i as int) =~= rs);
        widths.push(w);
        assert(widths@ =~= column_widths(hs, rs).take(c + 1));
        c = c + 1;
    }
    assert(widths@ =~= column_widths(hs, rs));
    widths
}

/// The total width of a line, the two-space gaps included.
fn measure_line(widths: &Vec<usize>) -> (r: u128)
    requires
        widths.len() >= 1,
    ensures
        r == line_width(widths@),
{
    let mut total: u128 = 0;
    let mut k: usize = 0;
    while k < widths.len()
        invariant
            k <= widths.len(),
            total == width_sum(widths@.take(k as int)),
            total <= (k as int) * 0xffff_ffff_ffff_ffffint,
        decreases widths.len() - k,
    {
        assert(widths@.take(k + 1).drop_last() =~= widths@.take(k as int));
        assert(widths[k as int] <= 0xffff_ffff_ffff_ffffint);
        assert((k as int) * 0xffff_ffff_ffff_ffffint + 0xffff_ffff_ffff_ffffint == (k + 1) * 0xffff_ffff_ffff_ffffint)
            by (nonlinear_arith);
        assert((k + 1) * 0xffff_ffff_ffff_ffffint <= 0xffff_ffff_ffff_ffffint * 0xffff_ffff_ffff_ffffint)
            by (nonlinear_arith)
            requires
                k + 1 <= 0xffff_ffff_ffff_ffffint,
        ;
        total = total + widths[k] as u128;
        k = k + 1;
    }
    assert(widths@.take(k as int) =~= widths@);
    total + 2 * ((widths.len() - 1) as u128)
}

/// Renders a table: the header line, a rule as wide as a line, then one
/// line per row, every column as wide as its widest entry.
pub fn render_table(headers: &Vec<String>, rows: &Vec<Vec<String>>) -> (r: Vec<String>)
    requires
        headers.len() >= 1,
        forall|i: int| 0 <= i < rows.len() ==> (#[trigger] rows@[i]).len() == headers.len(),
    ensures
        r.len() == rows.len() + 2,
        r[0]@ == table_line(texts(headers@), column_widths(texts(headers@), table_texts(rows@))),
        r[1]@ == separator(column_widths(texts(headers@), table_texts(rows@))),
        forall|i: int|
            0 <= i < rows.len() ==> r[i + 2]@ == table_line(
                #[trigger] table_texts(rows@)[i],
                column_widths(texts(headers@), table_texts(rows@)),
            ),
{
    let widths = measure_columns(headers, rows);
    let ghost ws = widths@;
    let mut lines: Vec<String> = Vec::new();
    lines.push(format_line(headers, &widths));
    let total = measure_line(&widths);
    let mut rule = String::new();
    proof {
        reveal_strlit("\u{2500}");
    }
    append_repeated(&mut rule, "\u{2500}", total);
    assert(rule@ =~= separator(ws));
    lines.push(rule);
    let mut i: usize = 0;
    while i < rows.len()
        invariant
            i <= rows.len(),
            ws == widths@,
            ws == column_widths(texts(headers@), table_texts(rows@)),
            ws.len() == headers.len(),
            headers.len() >= 1,
            forall|i: int| 0 <= i < rows.len() ==> (#[trigger] rows@[i]).len() == headers.len(),
            lines.len() == i + 2,
            lines[0]@ == table_line(texts(headers@), ws),
            lines[1]@ == separator(ws),
            forall|j: int| 0 <= j < i ==> lines[j + 2]@ == table_line(
                #[trigger] table_texts(rows@)[j],
                ws,
            ),
        decreases rows.len() - i,
    {
        let line = format_line(&rows[i], &widths);
        assert(table_texts(rows@)[i as int] == texts(rows@[i as int]@));
        lines.push(line);
        i = i + 1;
    }
    lines
}


/// The header row of the session table.
pub open spec fn table_headers() -> Seq<Seq<char>> {
    seq!["Session ID"@, "Title"@, "Directory"@, "Date"@]
}

/// One session's row: its id, title, shortened directory and date text.
pub open spec fn session_cells(s: Session, home: Option<Seq<char>>, date: Seq<char>) -> Seq<Seq<char>> {
    seq![s.id@, s.title@, shortened(s.directory@, home), date]
}

/// The rows of the session table.
pub open spec fn session_rows(
    sessions: Seq<Session>,
    home: Option<Seq<char>>,
    dates: Seq<Seq<char>>,
) -> Seq<Seq<Seq<char>>> {
    Seq::new(sessions.len(), |i: int| session_cells(sessions[i], home, dates[i]))
}

/// The lines that show the sessions: a notice when there are none, else the
/// header line, the rule, and a line per session.
pub open spec fn table_text(
    sessions: Seq<Session>,
    home: Option<Seq<char>>,
    dates: Seq<Seq<char>>,
) -> Seq<Seq<char>> {
    if sessions.len() == 0 {
        seq!["No sessions found."@]
    } else {
        let rows = session_rows(sessions, home, dates);
        let ws = column_widths(table_headers(), rows);
        seq![table_line(table_headers(), ws), separator(ws)] + Seq::new(
            rows.len(),
            |i: int| table_line(rows[i], ws),
        )
    }
}

/// The lines that show `sessions`, given the home directory to shorten
/// paths under and each session's date text.
pub fn session_table(sessions: &Vec<Session>, home: &Option<String>, dates: &Vec<String>) -> (r: Vec<
    String,
>)
    requires
        dates.len() == sessions.len(),
    ensures
        texts(r@) == table_text(sessions@, opt_text(*home), texts(dates@)),
{
    proof {
        reveal_strlit("No sessions found.");
        reveal_strlit("Session ID");
        reveal_strlit("Title");
        reveal_strlit("Directory");
        reveal_strlit("Date");
    }
    if sessions.len() == 0 {
        let r = vec![text_from("No sessions found.")];
        assert(texts(r@) =~= table_text(sessions@, opt_text(*home), texts(dates@)));
        return r;
    }
    let headers = vec![text_from("Session ID"), text_from("Title"), text_from("Directory"), text_from("Date")];
    assert(texts(headers@) =~= table_headers());
    let ghost want = session_rows(sessions@, opt_text(*home), texts(dates@));
    let mut rows: Vec<Vec<String>> = Vec::new();
    let mut i: usize = 0;
    while i < sessions.len()
        invariant
            i <= sessions.len(),
            dates.len() == sessions.len(),
            want == session_rows(sessions@, opt_text(*home), texts(dates@)),
            rows.len() == i,
            forall|j: int| 0 <= j < i ==> (#[trigger] rows@[j]).len() == 4,
            table_texts(rows@) == want.take(i as int),
        decreases sessions.len() - i,
    {
        let s = &sessions[i];
        let row = vec![
            s.id.clone(),
            s.title.clone(),
            shorten_path_under(s.directory.as_str(), home),
            dates[i].clone(),
        ];
        assert(texts(row@) =~= want[i as int]);
        rows.push(row);
        assert(table_texts(rows@) =~= want.take(i + 1));
        i = i + 1;
    }
    assert(want.take(i as int) =~= want);
    let r = render_table(&headers, &rows);
    assert(texts(r@) =~= table_text(sessions@, opt_text(*home), texts(dates@)));
    r
}

/// The lines that show `sessions` as a table, paths shortened under the
/// user's home directory and dates in local time.
pub fn table_lines(sessions: &Vec<Session>) -> (r: Vec<String>)
    ensures
        exists|home: Option<Seq<char>>, dates: Seq<Seq<char>>|
            {
                &&& dates.len() == sessions.len()
                &&& forall|i: int|
                    0 <= i < sessions.len() ==> is_date_of(#[trigger] dates[i], sessions@[i].time_created)
                &&& texts(r@) == table_text(sessions@, home, dates)
            },
{
    let home = home_dir_text();
    let mut dates: Vec<String> = Vec::new();
    let mut i: usize = 0;
    while i < sessions.len()
        invariant
            i <= sessions.len(),
            dates.len() == i,
            forall|j: int| 0 <= j < i ==> is_date_of(#[trigger] dates@[j]@, sessions@[j].time_created),
        decreases sessions.len() - i,
    {
        dates.push(format_date(sessions[i].time_created));
        i = i + 1;
    }
    let r = session_table(sessions, &home, &dates);
    assert(forall|j: int| 0 <= j < dates.len() ==> texts(dates@)[j] == dates@[j]@);
    r
}


proof fn lemma_encoding_len(s: Seq<char>)
    ensures
        vstd::utf8::encode_utf8(s).len() >= s.len(),
    decreases s.len(),
{
    if s.len() > 0 {
        lemma_encoding_len(s.drop_first());
    }
}

proof fn lemma_byte_len_covers_chars(s: Seq<char>)
    requires
        vstd::utf8::encode_utf8(s).len() <= usize::MAX,
    ensures
        byte_len(s) >= s.len(),
{
    lemma_encoding_len(s);
}

proof fn lemma_column_width_bounds(header: Seq<char>, rows: Seq<Seq<Seq<char>>>, c: int)
    ensures
        column_width(header, rows, c) >= byte_len(header),
        forall|i: int| 0 <= i < rows.len() ==> column_width(header, rows, c) >= byte_len(
            #[trigger] rows[i][c],
        ),
    decreases rows.len(),
{
    if rows.len() > 0 {
        lemma_column_width_bounds(header, rows.drop_last(), c);
        assert forall|i: int| 0 <= i < rows.len() implies column_width(header, rows, c) >= byte_len(
            #[trigger] rows[i][c],
        ) by {
            if i < rows.len() - 1 {
                assert(rows.drop_last()[i] == rows[i]);
            }
        }
    }
}

proof fn lemma_width_sum_nonnegative(widths: Seq<usize>)
    ensures
        width_sum(widths) >= 0,
    decreases widths.len(),
{
    if widths.len() > 0 {
        lemma_width_sum_nonnegative(widths.drop_last());
    }
}

proof fn lemma_line_length(cells: Seq<Seq<char>>, widths: Seq<usize>)
    requires
        cells.len() >= 1,
        cells.len() <= widths.len(),
        forall|k: int| 0 <= k < cells.len() ==> (#[trigger] cells[k]).len() <= widths[k],
    ensures
        table_line(cells, widths).len() == width_sum(widths.take(cells.len() as int)) + 2 * (
        cells.len() - 1),
    decreases cells.len(),
{
    let n = cells.len() as int;
    assert(widths.take(n).drop_last() =~= widths.take(n - 1));
    assert(widths.take(n).last() == widths[n - 1]);
    assert(cells[n - 1].len() <= widths[n - 1]);
    assert(padded(cells[n - 1], widths[n - 1]).len() == widths[n - 1]);
    assert(width_sum(widths.take(n)) == width_sum(widths.take(n - 1)) + widths[n - 1]);
    if n == 1 {
        assert(widths.take(0) =~= Seq::<usize>::empty());
        assert(width_sum(widths.take(0)) == 0);
    } else {
        assert forall|k: int| 0 <= k < cells.drop_last().len() implies (
        #[trigger] cells.drop_last()[k]).len() <= widths[k] by {
            assert(cells.drop_last()[k] == cells[k]);
        }
        lemma_line_length(cells.drop_last(), widths);
        assert(cells.last() == cells[n - 1]);
        assert(table_line(cells, widths) == table_line(cells.drop_last(), widths) + seq![' ', ' ']
            + padded(cells[n - 1], widths[n - 1]));
    }
}

/// Law: a table is aligned: the header line, the rule and every row line
/// are all exactly `line_width` characters long. Column widths count bytes
/// and a character takes at least one, so no cell is wider than its column.
/// The one condition is the machine's: every cell's length in bytes fits a
/// `usize`, as it does for any text held in memory.
pub proof fn lemma_table_aligned(headers: Seq<Seq<char>>, rows: Seq<Seq<Seq<char>>>)
    requires
        headers.len() >= 1,
        forall|i: int| 0 <= i < rows.len() ==> (#[trigger] rows[i]).len() == headers.len(),
        forall|c: int|
            0 <= c < headers.len() ==> vstd::utf8::encode_utf8(#[trigger] headers[c]).len()
                <= usize::MAX,
        forall|i: int, c: int|
            0 <= i < rows.len() && 0 <= c < headers.len() ==> vstd::utf8::encode_utf8(
                #[trigger] rows[i][c],
            ).len() <= usize::MAX,
    ensures
        table_line(headers, column_widths(headers, rows)).len() == line_width(
            column_widths(headers, rows),
        ),
        separator(column_widths(headers, rows)).len() == line_width(column_widths(headers, rows)),
        forall|i: int|
            0 <= i < rows.len() ==> (#[trigger] table_line(rows[i], column_widths(headers, rows))).len()
                == line_width(column_widths(headers, rows)),
{
    let ws = column_widths(headers, rows);
    assert(ws.take(headers.len() as int) =~= ws);
    lemma_width_sum_nonnegative(ws);
    assert forall|k: int| 0 <= k < headers.len() implies (#[trigger] headers[k]).len() <= ws[k] by {
        lemma_byte_len_covers_chars(headers[k]);
        lemma_column_width_bounds(headers[k], rows, k);
    }
    lemma_line_length(headers, ws);
    assert forall|i: int| 0 <= i < rows.len() implies (#[trigger] table_line(rows[i], ws)).len()
        == line_width(ws) by {
        assert forall|k: int| 0 <= k < rows[i].len() implies (#[trigger] rows[i][k]).len() <= ws[k] by {
            lemma_byte_len_covers_chars(rows[i][k]);
            lemma_column_width_bounds(headers[k], rows, k);
        }
        lemma_line_length(rows[i], ws);
    }
}

} // verus!
