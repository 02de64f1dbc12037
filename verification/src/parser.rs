//! The worklog's markdown format, read into weeks, days and items.
use vstd::prelude::*;

use crate::date::{parse_date, parsed_date, short_format, Date, Ymd, date_of, group_date};
use crate::text::{
    chars_of, contains_char, ends_with, ends_with_spec, parse_u32, parse_u32_spec, split_lines,
    split_lines_exec, is_ws, lemma_trim_end_matches_removed, lemma_trim_end_prefix,
    lemma_trim_end_removed, starts_with, starts_with_spec, string_of, sub_chars, trim_chars,
    trim_end_chars, trim_end_matches_chars, trim_end_matches_spec, trim_end_spec, trim_spec,
    views_of,
};

verus! {

broadcast use vstd::string::group_string_axioms, group_date;

// ---------------------------------------------------------------------------
// Structured worklog data
// ---------------------------------------------------------------------------

/// A single day's worklog entry.
#[derive(Debug, Clone, PartialEq)]
pub struct DayEntry {
    pub date: Date,
    pub items: Vec<String>,
}

/// A week of worklog entries.
#[derive(Debug, Clone, PartialEq)]
pub struct WeekEntry {
    pub week_number: u32,
    /// ISO year for this week (handles year boundaries correctly).
    /// `None` for entries parsed from markdown where the year is inferred from dates.
    pub iso_year: Option<i32>,
    pub days: Vec<DayEntry>,
}

/// Structured representation of the entire worklog.
#[derive(Debug, Clone, PartialEq)]
pub struct WorkLog {
    pub weeks: Vec<WeekEntry>,
}

/// The contents of a `DayEntry`.
#[verifier::ext_equal]
pub struct DayView {
    pub date: Date,
    pub items: Seq<Seq<char>>,
}

/// The contents of a `WeekEntry`.
#[verifier::ext_equal]
pub struct WeekView {
    pub week_number: u32,
    pub iso_year: Option<i32>,
    pub days: Seq<DayView>,
}

/// The texts held by a list of strings.
pub open spec fn texts_of(v: Seq<String>) -> Seq<Seq<char>> {
    v.map_values(|s: String| s@)
}

impl View for DayEntry {
    type V = DayView;

    open spec fn view(&self) -> DayView {
        DayView { date: self.date, items: texts_of(self.items@) }
    }
}

/// The contents of a list of days.
pub open spec fn days_view(v: Seq<DayEntry>) -> Seq<DayView> {
    v.map_values(|d: DayEntry| d@)
}

impl View for WeekEntry {
    type V = WeekView;

    open spec fn view(&self) -> WeekView {
        WeekView {
            week_number: self.week_number,
            iso_year: self.iso_year,
            days: days_view(self.days@),
        }
    }
}

/// The contents of a list of weeks.
pub open spec fn weeks_view(v: Seq<WeekEntry>) -> Seq<WeekView> {
    v.map_values(|w: WeekEntry| w@)
}

impl View for WorkLog {
    type V = Seq<WeekView>;

    open spec fn view(&self) -> Seq<WeekView> {
        weeks_view(self.weeks@)
    }
}

/// The error of `parse_worklog`.
#[derive(Debug)]
pub enum ParseError {
    /// A `## Week ...` header whose number does not parse; holds the line.
    InvalidWeekHeader(String),
}

impl View for ParseError {
    type V = Seq<char>;

    open spec fn view(&self) -> Seq<char> {
        match self {
            ParseError::InvalidWeekHeader(line) => line@,
        }
    }
}

impl ParseError {
    /// The error message: `invalid week header: <line>`.
    pub fn message(&self) -> (s: String)
        ensures
            s@ == "invalid week header: "@ + self@,
    {
        match self {
            ParseError::InvalidWeekHeader(line) => {
                let mut s = String::from_str("invalid week header: ");
                s.append(line.as_str());
                s
            },
        }
    }
}

// ---------------------------------------------------------------------------
// Line classification
// ---------------------------------------------------------------------------

/// `## `, which begins a week header.
pub open spec fn header_marker() -> Seq<char> {
    seq!['#', '#', ' ']
}

/// `**`, bold markers around a week header's text.
pub open spec fn bold_marker() -> Seq<char> {
    seq!['*', '*']
}

/// `Week `, which begins a week header's text.
pub open spec fn week_word() -> Seq<char> {
    seq!['W', 'e', 'e', 'k', ' ']
}

/// `* `, which begins a bullet item.
pub open spec fn bullet_marker() -> Seq<char> {
    seq!['*', ' ']
}

/// What follows `## ` in a header, without bold markers around it.
pub open spec fn header_inner(after: Seq<char>) -> Seq<char> {
    if starts_with_spec(after, bold_marker()) && ends_with_spec(after.skip(2), bold_marker()) {
        after.subrange(2, after.len() - 2)
    } else {
        after
    }
}

/// The week number of a line like `## Week N` or `## **Week N**`: `None` when
/// the line is no week header, `Some(Err(()))` when the number does not parse.
pub open spec fn week_header_spec(line: Seq<char>) -> Option<Result<u32, ()>> {
    if !starts_with_spec(line, header_marker()) {
        None
    } else {
        let inner = header_inner(line.skip(3));
        if !starts_with_spec(inner, week_word()) {
            None
        } else {
            match parse_u32_spec(trim_spec(inner.skip(5))) {
                Some(n) => Some(Ok(n)),
                None => Some(Err(())),
            }
        }
    }
}

/// The date of a date line like `Mar 9, 2026`: lines that begin with `*` or hold
/// no comma are no date lines; the others are what chrono parses of the trimmed
/// line with `%b %-d, %Y`.
pub open spec fn date_line_spec(line: Seq<char>) -> Option<Ymd> {
    if line.len() > 0 && line[0] == '*' {
        None
    } else if !line.contains(',') {
        None
    } else {
        parsed_date(trim_spec(line), short_format())
    }
}

/// An item's text without trailing backslashes and then trailing whitespace.
pub open spec fn clean_item_spec(text: Seq<char>) -> Seq<char> {
    trim_end_spec(trim_end_matches_spec(text, '\\'))
}

/// The characters that cleaning removes after the cleaned item: whitespace.
pub open spec fn item_trailing_ws(text: Seq<char>) -> Seq<char> {
    trim_end_matches_spec(text, '\\').skip(clean_item_spec(text).len() as int)
}

/// The characters that cleaning removes at the very end: backslashes.
pub open spec fn item_trailing_backslashes(text: Seq<char>) -> Seq<char> {
    text.skip(trim_end_matches_spec(text, '\\').len() as int)
}

/// Cleaning an item only cuts its end: the text is the cleaned item, then some
/// whitespace, then some backslashes; the cleaned item ends in no whitespace
/// (it may still end in a backslash, e.g. for `a\ \`).
pub proof fn lemma_clean_item_cuts_end(text: Seq<char>)
    ensures
        text == clean_item_spec(text) + item_trailing_ws(text) + item_trailing_backslashes(text),
        forall|i: int| 0 <= i < item_trailing_ws(text).len() ==> is_ws(#[trigger] item_trailing_ws(text)[i]),
        forall|i: int|
            0 <= i < item_trailing_backslashes(text).len() ==> #[trigger] item_trailing_backslashes(text)[i] == '\\',
        trim_end_spec(clean_item_spec(text)) == clean_item_spec(text),
{
    let m = trim_end_matches_spec(text, '\\');
    let r = clean_item_spec(text);
    lemma_trim_end_matches_removed(text, '\\');
    lemma_trim_end_prefix(m);
    lemma_trim_end_removed(m);
    assert(m + text.skip(m.len() as int) =~= text);
    assert(r + m.skip(r.len() as int) =~= m);
    assert forall|i: int| 0 <= i < item_trailing_ws(text).len() implies is_ws(#[trigger] item_trailing_ws(text)[i]) by {
        assert(item_trailing_ws(text)[i] == m[r.len() + i]);
    }
    assert forall|i: int| 0 <= i < item_trailing_backslashes(text).len() implies #[trigger] item_trailing_backslashes(text)[i] == '\\' by {
        assert(item_trailing_backslashes(text)[i] == text[m.len() + i]);
    }
}

/// `## Week ` followed by `rest`.
pub open spec fn plain_header(rest: Seq<char>) -> Seq<char> {
    header_marker() + week_word() + rest
}

/// `## **Week ` followed by `rest` and `**`.
pub open spec fn bold_header(rest: Seq<char>) -> Seq<char> {
    header_marker() + bold_marker() + week_word() + rest + bold_marker()
}

/// What a week header with number text `rest` yields: the number when `rest`,
/// trimmed, is one, else an error.
pub open spec fn header_number(rest: Seq<char>) -> Option<Result<u32, ()>> {
    match parse_u32_spec(trim_spec(rest)) {
        Some(n) => Some(Ok(n)),
        None => Some(Err(())),
    }
}

/// The week headers are exactly the lines `## Week <rest>` and
/// `## **Week <rest>**`; their number is `rest`, trimmed, and an error when it
/// is no number.
pub proof fn lemma_week_header_forms(line: Seq<char>, rest: Seq<char>)
    ensures
        line == plain_header(rest) ==> week_header_spec(line) == header_number(rest),
        line == bold_header(rest) ==> week_header_spec(line) == header_number(rest),
        week_header_spec(line) is Some ==> line == plain_header(line.skip(8)) || (line.len() >= 12
            && line == bold_header(line.subrange(10, line.len() - 2))),
{
    if line == plain_header(rest) {
        let after = line.skip(3);
        assert(line.take(3) =~= header_marker());
        assert(after =~= week_word() + rest);
        assert(after[0] == 'W');
        assert(!starts_with_spec(after, bold_marker()));
        assert(after.take(5) =~= week_word());
        assert(after.skip(5) =~= rest);
    }
    if line == bold_header(rest) {
        let after = line.skip(3);
        assert(line.take(3) =~= header_marker());
        assert(after =~= bold_marker() + week_word() + rest + bold_marker());
        assert(after.take(2) =~= bold_marker());
        let a2 = after.skip(2);
        assert(a2 =~= week_word() + rest + bold_marker());
        assert(a2.skip(a2.len() - 2) =~= bold_marker());
        let inner = after.subrange(2, after.len() - 2);
        assert(inner =~= week_word() + rest);
        assert(inner.take(5) =~= week_word());
        assert(inner.skip(5) =~= rest);
    }
    if week_header_spec(line) is Some {
        let after = line.skip(3);
        let inner = header_inner(after);
        assert(line.take(3) =~= header_marker());
        assert(inner.take(5) =~= week_word());
        if starts_with_spec(after, bold_marker()) && ends_with_spec(after.skip(2), bold_marker()) {
            let a2 = after.skip(2);
            assert(a2.skip(a2.len() - 2) =~= bold_marker());
            assert(after.take(2) =~= bold_marker());
            assert(inner =~= after.subrange(2, after.len() - 2));
            assert(line.subrange(10, line.len() - 2) =~= inner.skip(5));
            assert(line =~= bold_header(line.subrange(10, line.len() - 2)));
        } else {
            assert(line =~= plain_header(line.skip(8)));
        }
    }
}

// ---------------------------------------------------------------------------
// The parser as a state machine over lines
// ---------------------------------------------------------------------------

/// What the parser holds between lines: the finished weeks, the open week and
/// the open day.
#[verifier::ext_equal]
pub struct ParseState {
    pub weeks: Seq<WeekView>,
    pub week: Option<WeekView>,
    pub day: Option<DayView>,
}

/// The state before the first line.
pub open spec fn initial_state() -> ParseState {
    ParseState { weeks: Seq::empty(), week: None, day: None }
}

/// Closes the open day: it joins the open week if there is one, and is dropped
/// otherwise.
pub open spec fn commit_day(st: ParseState) -> ParseState {
    ParseState {
        weeks: st.weeks,
        week: match (st.week, st.day) {
            (Some(w), Some(d)) => Some(
                WeekView { week_number: w.week_number, iso_year: w.iso_year, days: w.days.push(d) },
            ),
            (w, _) => w,
        },
        day: None,
    }
}

/// The finished weeks once the open day and week are closed.
pub open spec fn finish_spec(st: ParseState) -> Seq<WeekView> {
    let c = commit_day(st);
    match c.week {
        Some(w) => c.weeks.push(w),
        None => c.weeks,
    }
}

/// The parser's step on one line (already stripped of trailing whitespace).
pub open spec fn step_spec(st: ParseState, line: Seq<char>) -> Result<ParseState, Seq<char>> {
    if line.len() == 0 {
        Ok(st)
    } else if week_header_spec(line) is Some {
        match week_header_spec(line).unwrap() {
            Err(_) => Err(line),
            Ok(n) => Ok(
                ParseState {
                    weeks: finish_spec(st),
                    week: Some(WeekView { week_number: n, iso_year: None, days: Seq::empty() }),
                    day: None,
                },
            ),
        }
    } else if starts_with_spec(line, bullet_marker()) {
        match st.day {
            Some(d) => Ok(
                ParseState {
                    weeks: st.weeks,
                    week: st.week,
                    day: Some(
                        DayView { date: d.date, items: d.items.push(clean_item_spec(line.skip(2))) },
                    ),
                },
            ),
            None => Ok(st),
        }
    } else {
        match date_line_spec(line) {
            Some(t) => {
                let c = commit_day(st);
                Ok(
                    ParseState {
                        weeks: c.weeks,
                        week: c.week,
                        day: Some(DayView { date: date_of(t), items: Seq::empty() }),
                    },
                )
            },
            None => Ok(st),
        }
    }
}

/// The parser's state after `lines`, or the first line that is a malformed
/// week header.
pub open spec fn run_lines(lines: Seq<Seq<char>>) -> Result<ParseState, Seq<char>>
    decreases lines.len(),
{
    if lines.len() == 0 {
        Ok(initial_state())
    } else {
        match run_lines(lines.drop_last()) {
            Ok(st) => step_spec(st, lines.last()),
            Err(e) => Err(e),
        }
    }
}

/// The lines of `input` as the parser sees them: split at newlines, trailing
/// whitespace (including a `\r` of a `\r\n` ending) removed.
pub open spec fn worklog_lines(input: Seq<char>) -> Seq<Seq<char>> {
    split_lines(input).map_values(|l: Seq<char>| trim_end_spec(l))
}

/// What `parse_worklog` yields for `input`: the weeks, or the first malformed
/// week header line.
pub open spec fn parse_spec(input: Seq<char>) -> Result<Seq<WeekView>, Seq<char>> {
    match run_lines(worklog_lines(input)) {
        Ok(st) => Ok(finish_spec(st)),
        Err(e) => Err(e),
    }
}

/// Once a malformed header has stopped the parser, later lines do not matter.
pub proof fn lemma_run_err_sticky(lines: Seq<Seq<char>>, k: int, e: Seq<char>)
    requires
        0 <= k <= lines.len(),
        run_lines(lines.take(k)) == Err::<ParseState, Seq<char>>(e),
    ensures
        run_lines(lines) == Err::<ParseState, Seq<char>>(e),
    decreases lines.len(),
{
    if k == lines.len() {
        assert(lines.take(k) == lines);
    } else {
        assert(lines.drop_last().take(k) == lines.take(k));
        lemma_run_err_sticky(lines.drop_last(), k, e);
    }
}

/// A line that is a week header whose number does not parse.
pub open spec fn bad_header(line: Seq<char>) -> bool {
    week_header_spec(line) matches Some(Err(_))
}

/// A step of the parser fails exactly on a malformed week header, with that line.
proof fn lemma_step_err(st: ParseState, line: Seq<char>)
    ensures
        step_spec(st, line) is Err <==> bad_header(line),
        step_spec(st, line) matches Err(e) ==> e == line,
{
    if line.len() == 0 {
        assert(!starts_with_spec(line, header_marker()));
    }
}

/// Running the parser over `lines` fails exactly when some line is a malformed
/// week header, and then with the first such line.
proof fn lemma_run_lines_err(lines: Seq<Seq<char>>)
    ensures
        run_lines(lines) is Err <==> exists|k: int| 0 <= k < lines.len() && bad_header(#[trigger] lines[k]),
        run_lines(lines) matches Err(e) ==> exists|k: int|
            0 <= k < lines.len() && bad_header(#[trigger] lines[k]) && e == lines[k] && forall|j: int|
                0 <= j < k ==> !bad_header(#[trigger] lines[j]),
    decreases lines.len(),
{
    if lines.len() > 0 {
        let prev = lines.drop_last();
        lemma_run_lines_err(prev);
        assert forall|j: int| 0 <= j < prev.len() implies #[trigger] prev[j] == lines[j] by {}
        match run_lines(prev) {
            Err(e) => {
                let k = choose|k: int|
                    0 <= k < prev.len() && bad_header(#[trigger] prev[k]) && e == prev[k] && forall|j: int|
                        0 <= j < k ==> !bad_header(#[trigger] prev[j]);
                assert(bad_header(lines[k]));
                assert forall|j: int| 0 <= j < k implies !bad_header(#[trigger] lines[j]) by {
                    assert(prev[j] == lines[j]);
                }
            },
            Ok(st) => {
                lemma_step_err(st, lines.last());
                let k = lines.len() - 1;
                assert(lines.last() == lines[k]);
                if bad_header(lines[k]) {
                    assert forall|j: int| 0 <= j < k implies !bad_header(#[trigger] lines[j]) by {
                        assert(prev[j] == lines[j]);
                        if bad_header(prev[j]) {
                            assert(exists|q: int| 0 <= q < prev.len() && bad_header(#[trigger] prev[q]));
                        }
                    }
                } else {
                    assert forall|j: int| 0 <= j < lines.len() implies !bad_header(#[trigger] lines[j]) by {
                        if j < k {
                            assert(prev[j] == lines[j]);
                            if bad_header(prev[j]) {
                                assert(exists|q: int| 0 <= q < prev.len() && bad_header(#[trigger] prev[q]));
                            }
                        }
                    }
                }
            },
        }
    }
}

/// Reading fails exactly when some line (trailing whitespace removed) is a week
/// header whose number does not parse; the error holds the first such line.
/// Prose, stray bullets and other lines never make it fail.
pub proof fn lemma_parse_error_first_bad_header(input: Seq<char>)
    ensures
        parse_spec(input) is Err <==> exists|k: int|
            0 <= k < worklog_lines(input).len() && bad_header(#[trigger] worklog_lines(input)[k]),
        parse_spec(input) matches Err(e) ==> exists|k: int|
            0 <= k < worklog_lines(input).len() && bad_header(#[trigger] worklog_lines(input)[k]) && e
                == worklog_lines(input)[k] && forall|j: int|
                0 <= j < k ==> !bad_header(#[trigger] worklog_lines(input)[j]),
{
    lemma_run_lines_err(worklog_lines(input));
}

/// The numbers of the well-formed week headers among `lines`, in order.
pub open spec fn header_numbers(lines: Seq<Seq<char>>) -> Seq<u32>
    decreases lines.len(),
{
    if lines.len() == 0 {
        Seq::empty()
    } else {
        match week_header_spec(lines.last()) {
            Some(Ok(n)) => header_numbers(lines.drop_last()).push(n),
            _ => header_numbers(lines.drop_last()),
        }
    }
}

/// The week numbers of some weeks, in order.
pub open spec fn week_numbers(ws: Seq<WeekView>) -> Seq<u32> {
    ws.map_values(|w: WeekView| w.week_number)
}

/// Line `k` is a date line for the date `t`: not empty, no week header, no
/// bullet, and a date in the worklog's format.
pub open spec fn date_line_at(lines: Seq<Seq<char>>, k: int, t: Ymd) -> bool {
    &&& lines[k].len() > 0
    &&& week_header_spec(lines[k]) is None
    &&& !starts_with_spec(lines[k], bullet_marker())
    &&& date_line_spec(lines[k]) == Some(t)
}

/// Line `k` is a bullet whose cleaned text is `item`.
pub open spec fn bullet_item_at(lines: Seq<Seq<char>>, k: int, item: Seq<char>) -> bool {
    &&& week_header_spec(lines[k]) is None
    &&& starts_with_spec(lines[k], bullet_marker())
    &&& item == clean_item_spec(lines[k].skip(2))
}

/// Some line before `n` is a date line for `t`.
pub open spec fn date_read_from(lines: Seq<Seq<char>>, n: int, t: Ymd) -> bool {
    exists|k: int| 0 <= k < n && #[trigger] date_line_at(lines, k, t)
}

/// Some line before `n` is a bullet with cleaned text `item`.
pub open spec fn item_read_from(lines: Seq<Seq<char>>, n: int, item: Seq<char>) -> bool {
    exists|k: int| 0 <= k < n && #[trigger] bullet_item_at(lines, k, item)
}

/// A day read from the lines before `n`: its date from a date line, each item
/// from a bullet line.
pub open spec fn day_read_from(d: DayView, lines: Seq<Seq<char>>, n: int) -> bool {
    &&& date_read_from(lines, n, d.date@)
    &&& forall|m: int| 0 <= m < d.items.len() ==> #[trigger] item_read_from(lines, n, d.items[m])
}

/// A week read from the lines before `n`: no ISO year, and its days read from
/// those lines.
pub open spec fn week_read_from(w: WeekView, lines: Seq<Seq<char>>, n: int) -> bool {
    &&& w.iso_year is None
    &&& forall|l: int| 0 <= l < w.days.len() ==> #[trigger] day_read_from(w.days[l], lines, n)
}

/// What the parser holds after the lines before `n`: everything read from those
/// lines, and one week per well-formed header among them.
spec fn state_read_from(st: ParseState, lines: Seq<Seq<char>>, n: int) -> bool {
    &&& forall|j: int| 0 <= j < st.weeks.len() ==> #[trigger] week_read_from(st.weeks[j], lines, n)
    &&& (st.week matches Some(w) ==> week_read_from(w, lines, n))
    &&& (st.day matches Some(d) ==> day_read_from(d, lines, n))
    &&& week_numbers(st.weeks) + (match st.week {
        Some(w) => seq![w.week_number],
        None => Seq::empty(),
    }) == header_numbers(lines.take(n))
}

/// What was read from the lines before `n` was read from the lines before `n2 >= n`.
proof fn lemma_day_read_mono(d: DayView, lines: Seq<Seq<char>>, n: int, n2: int)
    requires
        day_read_from(d, lines, n),
        n <= n2,
    ensures
        day_read_from(d, lines, n2),
{
    let k = choose|k: int| 0 <= k < n && #[trigger] date_line_at(lines, k, d.date@);
    assert(date_line_at(lines, k, d.date@));
    assert forall|m: int| 0 <= m < d.items.len() implies #[trigger] item_read_from(lines, n2, d.items[m]) by {
        assert(item_read_from(lines, n, d.items[m]));
        let q = choose|q: int| 0 <= q < n && #[trigger] bullet_item_at(lines, q, d.items[m]);
        assert(bullet_item_at(lines, q, d.items[m]));
    }
}

/// Weeks read from the lines before `n` were read from the lines before `n2 >= n`.
proof fn lemma_week_read_mono(w: WeekView, lines: Seq<Seq<char>>, n: int, n2: int)
    requires
        week_read_from(w, lines, n),
        n <= n2,
    ensures
        week_read_from(w, lines, n2),
{
    assert forall|l: int| 0 <= l < w.days.len() implies #[trigger] day_read_from(w.days[l], lines, n2) by {
        lemma_day_read_mono(w.days[l], lines, n, n2);
    }
}

/// Closing the open day and week keeps everything read from the lines, and the
/// week numbers.
proof fn lemma_finish_read(st: ParseState, lines: Seq<Seq<char>>, n: int)
    requires
        state_read_from(st, lines, n),
    ensures
        forall|j: int| 0 <= j < finish_spec(st).len() ==> #[trigger] week_read_from(finish_spec(st)[j], lines, n),
        week_numbers(finish_spec(st)) == header_numbers(lines.take(n)),
{
    let c = commit_day(st);
    if let Some(w) = st.week {
        let w2 = c.week.unwrap();
        assert forall|l: int| 0 <= l < w2.days.len() implies #[trigger] day_read_from(w2.days[l], lines, n) by {
            if l < w.days.len() {
                assert(w2.days[l] == w.days[l]);
            }
        }
        assert(week_read_from(w2, lines, n));
        assert(finish_spec(st) == st.weeks.push(w2));
        assert forall|j: int| 0 <= j < finish_spec(st).len() implies #[trigger] week_read_from(finish_spec(st)[j], lines, n) by {
            if j < st.weeks.len() {
                assert(finish_spec(st)[j] == st.weeks[j]);
            }
        }
        assert(week_numbers(finish_spec(st)) =~= week_numbers(st.weeks) + seq![w.week_number]);
    } else {
        assert(finish_spec(st) == st.weeks);
        assert(week_numbers(st.weeks) + Seq::<u32>::empty() =~= week_numbers(st.weeks));
    }
}

/// One step of the parser over line `n` keeps everything read from the lines.
proof fn lemma_step_read(st: ParseState, lines: Seq<Seq<char>>, n: int)
    requires
        0 <= n < lines.len(),
        state_read_from(st, lines, n),
        step_spec(st, lines[n]) is Ok,
    ensures
        state_read_from(step_spec(st, lines[n])->Ok_0, lines, n + 1),
{
    let line = lines[n];
    let st2 = step_spec(st, line)->Ok_0;
    assert(lines.take(n + 1).drop_last() =~= lines.take(n));
    assert(lines.take(n + 1).last() == line);
    assert forall|j: int| 0 <= j < st.weeks.len() implies #[trigger] week_read_from(st.weeks[j], lines, n + 1) by {
        lemma_week_read_mono(st.weeks[j], lines, n, n + 1);
    }
    if let Some(w) = st.week {
        lemma_week_read_mono(w, lines, n, n + 1);
    }
    if let Some(d) = st.day {
        lemma_day_read_mono(d, lines, n, n + 1);
    }
    if line.len() == 0 {
        assert(!starts_with_spec(line, header_marker()));
    } else if week_header_spec(line) is Some {
        let m = week_header_spec(line).unwrap()->Ok_0;
        lemma_finish_read(st, lines, n);
        let f = finish_spec(st);
        assert forall|j: int| 0 <= j < f.len() implies #[trigger] week_read_from(f[j], lines, n + 1) by {
            lemma_week_read_mono(f[j], lines, n, n + 1);
        }
        assert(st2.weeks == f);
        assert(week_numbers(f) + seq![m] == header_numbers(lines.take(n + 1)));
    } else if starts_with_spec(line, bullet_marker()) {
        if let Some(d) = st.day {
            let item = clean_item_spec(line.skip(2));
            let d2 = st2.day.unwrap();
            assert(bullet_item_at(lines, n, item));
            assert forall|m: int| 0 <= m < d2.items.len() implies #[trigger] item_read_from(lines, n + 1, d2.items[m]) by {
                if m < d.items.len() {
                    assert(d2.items[m] == d.items[m]);
                    assert(item_read_from(lines, n + 1, d.items[m]));
                } else {
                    assert(d2.items[m] == item);
                }
            }
        }
    } else {
        match date_line_spec(line) {
            Some(t) => {
                assert(date_line_at(lines, n, t));
                assert(date_of(t)@ == t);
                let c = commit_day(st);
                if let Some(w) = st.week {
                    let w2 = c.week.unwrap();
                    assert forall|l: int| 0 <= l < w2.days.len() implies #[trigger] day_read_from(w2.days[l], lines, n + 1) by {
                        if l < w.days.len() {
                            assert(w2.days[l] == w.days[l]);
                        }
                    }
                }
            },
            None => {},
        }
    }
}

/// The parser's state after the lines before `n` holds what was read from them.
proof fn lemma_run_read(lines: Seq<Seq<char>>, n: int)
    requires
        0 <= n <= lines.len(),
    ensures
        run_lines(lines.take(n)) matches Ok(st) ==> state_read_from(st, lines, n),
    decreases n,
{
    if n == 0 {
        assert(lines.take(0) =~= Seq::<Seq<char>>::empty());
        assert(week_numbers(Seq::<WeekView>::empty()) =~= Seq::<u32>::empty());
        assert(week_numbers(Seq::<WeekView>::empty()) + Seq::<u32>::empty() =~= Seq::<u32>::empty());
    } else {
        lemma_run_read(lines, n - 1);
        let t = lines.take(n);
        assert(t.drop_last() =~= lines.take(n - 1));
        assert(t.last() == lines[n - 1]);
        if let Ok(st) = run_lines(lines.take(n - 1)) {
            if step_spec(st, lines[n - 1]) is Ok {
                lemma_step_read(st, lines, n - 1);
            }
        }
    }
}

/// What reading gives: one week per well-formed week header, in input order,
/// each without an ISO year; every day's date comes from a date line, and
/// every item is the cleaned text of a bullet line.
pub proof fn lemma_parse_result_from_lines(input: Seq<char>)
    ensures
        parse_spec(input) matches Ok(ws) ==> {
            &&& week_numbers(ws) == header_numbers(worklog_lines(input))
            &&& forall|j: int|
                0 <= j < ws.len() ==> #[trigger] week_read_from(
                    ws[j],
                    worklog_lines(input),
                    worklog_lines(input).len() as int,
                )
        },
{
    let lines = worklog_lines(input);
    lemma_run_read(lines, lines.len() as int);
    assert(lines.take(lines.len() as int) =~= lines);
    if let Ok(st) = run_lines(lines) {
        lemma_finish_read(st, lines, lines.len() as int);
    }
}

/// Line `q` is a date line (of any date).
pub open spec fn is_date_line(lines: Seq<Seq<char>>, q: int) -> bool {
    &&& lines[q].len() > 0
    &&& week_header_spec(lines[q]) is None
    &&& !starts_with_spec(lines[q], bullet_marker())
    &&& date_line_spec(lines[q]) is Some
}

/// No line strictly between `a` and `b` is a week header.
pub open spec fn no_header_between(lines: Seq<Seq<char>>, a: int, b: int) -> bool {
    forall|q: int| a < q < b ==> week_header_spec(#[trigger] lines[q]) is None
}

/// No line strictly between `a` and `b` is a week header or a date line.
pub open spec fn no_break_between(lines: Seq<Seq<char>>, a: int, b: int) -> bool {
    forall|q: int| a < q < b ==> week_header_spec(#[trigger] lines[q]) is None && !is_date_line(lines, q)
}

/// `item` is the cleaned text of a bullet line after the date line `kd`, with
/// no week header or date line in between.
pub open spec fn item_under(lines: Seq<Seq<char>>, kd: int, item: Seq<char>) -> bool {
    exists|ki: int|
        kd < ki < lines.len() && #[trigger] bullet_item_at(lines, ki, item) && no_break_between(lines, kd, ki)
}

/// Day `d` is read from the date line `kd`, which follows the header `h` with
/// no week header in between, and its items from bullet lines under `kd`.
pub open spec fn day_at(lines: Seq<Seq<char>>, h: int, kd: int, d: DayView) -> bool {
    &&& h < kd < lines.len()
    &&& date_line_at(lines, kd, d.date@)
    &&& no_header_between(lines, h, kd)
    &&& forall|m: int| 0 <= m < d.items.len() ==> #[trigger] item_under(lines, kd, d.items[m])
}

/// Day `d` belongs to the week whose header is line `h`.
pub open spec fn day_under(lines: Seq<Seq<char>>, h: int, d: DayView) -> bool {
    exists|kd: int| #[trigger] day_at(lines, h, kd, d)
}

/// Week `w` is read from the header on line `h`: its number is that header's,
/// it has no ISO year, and each of its days belongs to it.
pub open spec fn week_under(lines: Seq<Seq<char>>, h: int, w: WeekView) -> bool {
    &&& 0 <= h < lines.len()
    &&& week_header_spec(lines[h]) == Some(Ok::<u32, ()>(w.week_number))
    &&& w.iso_year is None
    &&& forall|l: int| 0 <= l < w.days.len() ==> #[trigger] day_under(lines, h, w.days[l])
}

/// Week `w` is read from some header line.
pub open spec fn week_sectioned(lines: Seq<Seq<char>>, w: WeekView) -> bool {
    exists|h: int| #[trigger] week_under(lines, h, w)
}

/// The open day `d`, read from the date line `kd` of the week whose header is
/// `h`, with nothing breaking it up to line `n`.
spec fn open_day_at(lines: Seq<Seq<char>>, h: int, kd: int, d: DayView, n: int) -> bool {
    &&& kd < n
    &&& day_at(lines, h, kd, d)
    &&& no_break_between(lines, kd, n)
}

/// The open week `w` (and open day), read from the header `h`, with no other
/// header up to line `n`.
spec fn open_week_at(lines: Seq<Seq<char>>, h: int, w: WeekView, day: Option<DayView>, n: int) -> bool {
    &&& h < n
    &&& week_under(lines, h, w)
    &&& no_header_between(lines, h, n)
    &&& (day matches Some(d) ==> exists|kd: int| #[trigger] open_day_at(lines, h, kd, d, n))
}

/// The parser's state after the lines before `n`, in sections.
spec fn state_sectioned(st: ParseState, lines: Seq<Seq<char>>, n: int) -> bool {
    &&& forall|j: int| 0 <= j < st.weeks.len() ==> #[trigger] week_sectioned(lines, st.weeks[j])
    &&& (st.week matches Some(w) ==> exists|h: int| #[trigger] open_week_at(lines, h, w, st.day, n))
}

/// Closing the open day and week gives weeks read in sections.
proof fn lemma_finish_sectioned(st: ParseState, lines: Seq<Seq<char>>, n: int)
    requires
        state_sectioned(st, lines, n),
        n <= lines.len(),
    ensures
        forall|j: int| 0 <= j < finish_spec(st).len() ==> #[trigger] week_sectioned(lines, finish_spec(st)[j]),
{
    let f = finish_spec(st);
    if let Some(w) = st.week {
        let h = choose|h: int| #[trigger] open_week_at(lines, h, w, st.day, n);
        let w2 = commit_day(st).week.unwrap();
        assert forall|l: int| 0 <= l < w2.days.len() implies #[trigger] day_under(lines, h, w2.days[l]) by {
            if l < w.days.len() {
                assert(w2.days[l] == w.days[l]);
            } else {
                let d = st.day.unwrap();
                assert(w2.days[l] == d);
                let kd = choose|kd: int| #[trigger] open_day_at(lines, h, kd, d, n);
                assert(day_at(lines, h, kd, d));
            }
        }
        assert(week_under(lines, h, w2));
        assert(f == st.weeks.push(w2));
        assert forall|j: int| 0 <= j < f.len() implies #[trigger] week_sectioned(lines, f[j]) by {
            if j < st.weeks.len() {
                assert(f[j] == st.weeks[j]);
            } else {
                assert(f[j] == w2);
            }
        }
    } else {
        assert(f == st.weeks);
    }
}

/// One step of the parser over line `n` keeps the state in sections.
proof fn lemma_step_sectioned(st: ParseState, lines: Seq<Seq<char>>, n: int)
    requires
        0 <= n < lines.len(),
        state_sectioned(st, lines, n),
        step_spec(st, lines[n]) is Ok,
    ensures
        state_sectioned(step_spec(st, lines[n])->Ok_0, lines, n + 1),
{
    let line = lines[n];
    let st2 = step_spec(st, line)->Ok_0;
    if line.len() == 0 {
        assert(!starts_with_spec(line, header_marker()));
        assert(!is_date_line(lines, n));
        if let Some(w) = st.week {
            let h = choose|h: int| #[trigger] open_week_at(lines, h, w, st.day, n);
            if let Some(d) = st.day {
                let kd = choose|kd: int| #[trigger] open_day_at(lines, h, kd, d, n);
                assert(open_day_at(lines, h, kd, d, n + 1));
            }
            assert(open_week_at(lines, h, w, st2.day, n + 1));
        }
    } else if week_header_spec(line) is Some {
        let m = week_header_spec(line).unwrap()->Ok_0;
        lemma_finish_sectioned(st, lines, n);
        let w = WeekView { week_number: m, iso_year: None, days: Seq::empty() };
        assert(st2.week == Some(w));
        assert(week_under(lines, n, w));
        assert(open_week_at(lines, n, w, st2.day, n + 1));
    } else if starts_with_spec(line, bullet_marker()) {
        assert(!is_date_line(lines, n));
        if let Some(w) = st.week {
            let h = choose|h: int| #[trigger] open_week_at(lines, h, w, st.day, n);
            if let Some(d) = st.day {
                let kd = choose|kd: int| #[trigger] open_day_at(lines, h, kd, d, n);
                let item = clean_item_spec(line.skip(2));
                let d2 = st2.day.unwrap();
                assert(bullet_item_at(lines, n, item));
                assert(item_under(lines, kd, item));
                assert forall|mm: int| 0 <= mm < d2.items.len() implies #[trigger] item_under(lines, kd, d2.items[mm]) by {
                    if mm < d.items.len() {
                        assert(d2.items[mm] == d.items[mm]);
                    } else {
                        assert(d2.items[mm] == item);
                    }
                }
                assert(day_at(lines, h, kd, d2));
                assert(open_day_at(lines, h, kd, d2, n + 1));
            }
            assert(open_week_at(lines, h, w, st2.day, n + 1));
        }
    } else {
        match date_line_spec(line) {
            Some(t) => {
                assert(date_line_at(lines, n, t));
                assert(date_of(t)@ == t);
                let c = commit_day(st);
                if let Some(w) = st.week {
                    let h = choose|h: int| #[trigger] open_week_at(lines, h, w, st.day, n);
                    let w2 = c.week.unwrap();
                    assert forall|l: int| 0 <= l < w2.days.len() implies #[trigger] day_under(lines, h, w2.days[l]) by {
                        if l < w.days.len() {
                            assert(w2.days[l] == w.days[l]);
                        } else {
                            let d = st.day.unwrap();
                            assert(w2.days[l] == d);
                            let kd = choose|kd: int| #[trigger] open_day_at(lines, h, kd, d, n);
                            assert(day_at(lines, h, kd, d));
                        }
                    }
                    assert(week_under(lines, h, w2));
                    let d2 = st2.day.unwrap();
                    assert(d2.date@ == t);
                    assert(day_at(lines, h, n, d2));
                    assert(open_day_at(lines, h, n, d2, n + 1));
                    assert(open_week_at(lines, h, w2, st2.day, n + 1));
                }
            },
            None => {
                assert(!is_date_line(lines, n));
                if let Some(w) = st.week {
                    let h = choose|h: int| #[trigger] open_week_at(lines, h, w, st.day, n);
                    if let Some(d) = st.day {
                        let kd = choose|kd: int| #[trigger] open_day_at(lines, h, kd, d, n);
                        assert(open_day_at(lines, h, kd, d, n + 1));
                    }
                    assert(open_week_at(lines, h, w, st2.day, n + 1));
                }
            },
        }
    }
}

/// The parser's state after the lines before `n` is in sections.
proof fn lemma_run_sectioned(lines: Seq<Seq<char>>, n: int)
    requires
        0 <= n <= lines.len(),
    ensures
        run_lines(lines.take(n)) matches Ok(st) ==> state_sectioned(st, lines, n),
    decreases n,
{
    if n == 0 {
        assert(lines.take(0) =~= Seq::<Seq<char>>::empty());
    } else {
        lemma_run_sectioned(lines, n - 1);
        let t = lines.take(n);
        assert(t.drop_last() =~= lines.take(n - 1));
        assert(t.last() == lines[n - 1]);
        if let Ok(st) = run_lines(lines.take(n - 1)) {
            if step_spec(st, lines[n - 1]) is Ok {
                lemma_step_sectioned(st, lines, n - 1);
            }
        }
    }
}

/// Reading keeps the sections of the text: every week comes from a
/// well-formed week header line with its number and no ISO year; each of its
/// days comes from a date line after that header, with no other week header
/// in between; and each item of a day is the cleaned text of a bullet line
/// after that day's date line, with no week header or date line in between.
/// Lines before the first header, and bullets before a week's first date
/// line, give nothing.
pub proof fn lemma_parse_sections(input: Seq<char>)
    ensures
        parse_spec(input) matches Ok(ws) ==> forall|j: int|
            0 <= j < ws.len() ==> #[trigger] week_sectioned(worklog_lines(input), ws[j]),
{
    let lines = worklog_lines(input);
    lemma_run_sectioned(lines, lines.len() as int);
    assert(lines.take(lines.len() as int) =~= lines);
    if let Ok(st) = run_lines(lines) {
        lemma_finish_sectioned(st, lines, lines.len() as int);
    }
}

/// Every line of the input is read, the last one too whether or not a newline
/// ends it: a text without newlines is one line, trailing whitespace removed.
pub proof fn lemma_worklog_lines_single(a: Seq<char>)
    requires
        !a.contains('\n'),
    ensures
        worklog_lines(a) == seq![trim_end_spec(a)],
{
    crate::text::lemma_split_one_line(a);
    assert(worklog_lines(a) =~= seq![trim_end_spec(a)]);
}

/// A first line, a newline and the rest are read as that line, trailing
/// whitespace removed, followed by the lines of the rest.
pub proof fn lemma_worklog_lines_first(a: Seq<char>, b: Seq<char>)
    requires
        !a.contains('\n'),
    ensures
        worklog_lines(a + seq!['\n'] + b) == seq![trim_end_spec(a)] + worklog_lines(b),
{
    crate::text::lemma_split_first_line(a, b);
    assert(worklog_lines(a + seq!['\n'] + b) =~= seq![trim_end_spec(a)] + worklog_lines(b));
}

/// Whether the input ends with a newline does not change what is read.
pub proof fn lemma_parse_final_newline(s: Seq<char>)
    ensures
        parse_spec(s + seq!['\n']) == parse_spec(s),
{
    crate::text::lemma_split_final_newline(s);
    let lines = worklog_lines(s);
    let more = worklog_lines(s + seq!['\n']);
    assert(trim_end_spec(Seq::<char>::empty()) == Seq::<char>::empty());
    assert(more =~= lines.push(Seq::<char>::empty()));
    assert(more.drop_last() =~= lines);
    assert(more.last() == Seq::<char>::empty());
}

// ---------------------------------------------------------------------------
// Executable parser
// ---------------------------------------------------------------------------

/// The number of a week header line, in characters; `Some(Err(()))` when the
/// number does not parse.
fn week_header_chars(line: &Vec<char>) -> (r: Option<Result<u32, ()>>)
    ensures
        r == week_header_spec(line@),
{
    let marker = vec!['#', '#', ' '];
    assert(marker@ == header_marker());
    if !starts_with(line, &marker) {
        return None;
    }
    let after = sub_chars(line, 3, line.len());
    assert(after@ == line@.skip(3));
    let bold = vec!['*', '*'];
    assert(bold@ == bold_marker());
    let mut inner = after.clone();
    if starts_with(&after, &bold) {
        let rest = sub_chars(&after, 2, after.len());
        assert(rest@ == after@.skip(2));
        if ends_with(&rest, &bold) {
            inner = sub_chars(&after, 2, after.len() - 2);
        }
    }
    assert(inner@ == header_inner(after@));
    let word = vec!['W', 'e', 'e', 'k', ' '];
    assert(word@ == week_word());
    if !starts_with(&inner, &word) {
        return None;
    }
    let number = sub_chars(&inner, 5, inner.len());
    assert(number@ == inner@.skip(5));
    let trimmed = trim_chars(&number);
    match parse_u32(&trimmed) {
        Some(n) => Some(Ok(n)),
        None => Some(Err(())),
    }
}

/// Extracts the week number from a line like `## Week N` or `## **Week N**`.
/// Returns `None` when the line is no week header, and an error holding the
/// line when the number does not parse.
pub fn parse_week_header(line: &str) -> (r: Option<Result<u32, ParseError>>)
    ensures
        match week_header_spec(line@) {
            None => r is None,
            Some(Ok(n)) => r == Some(Ok::<u32, ParseError>(n)),
            Some(Err(_)) => r matches Some(Err(e)) && e@ == line@,
        },
{
    let chars = chars_of(line);
    match week_header_chars(&chars) {
        None => None,
        Some(Ok(n)) => Some(Ok(n)),
        Some(Err(())) => Some(Err(ParseError::InvalidWeekHeader(String::from_str(line)))),
    }
}

/// The date of a date line like `Mar 9, 2026`, or `None` for lines that are no
/// dates (including partial matches), which the parser skips.
fn parse_date_line(line: &Vec<char>) -> (r: Option<Date>)
    ensures
        match date_line_spec(line@) {
            Some(t) => r matches Some(d) && d@ == t,
            None => r is None,
        },
{
    if line.len() > 0 && line[0] == '*' {
        return None;
    }
    if !contains_char(line, ',') {
        return None;
    }
    let trimmed = trim_chars(line);
    let fmt = "%b %-d, %Y";
    proof {
        reveal_strlit("%b %-d, %Y");
        assert(fmt@ =~= short_format());
    }
    parse_date(&trimmed, fmt)
}

/// Trims trailing continuation markers used in the archive (backslashes, then
/// the whitespace of Markdown line breaks) without altering other content.
pub fn clean_item(text: &str) -> (r: String)
    ensures
        r@ == clean_item_spec(text@),
{
    let chars = chars_of(text);
    string_of(&clean_item_chars(&chars))
}

/// `clean_item` on characters.
fn clean_item_chars(text: &Vec<char>) -> (r: Vec<char>)
    ensures
        r@ == clean_item_spec(text@),
{
    let t = trim_end_matches_chars(text, '\\');
    trim_end_chars(&t)
}

/// The parser's state during the walk over the lines.
struct Parser {
    weeks: Vec<WeekEntry>,
    week: Option<WeekEntry>,
    day: Option<DayEntry>,
}

impl View for Parser {
    type V = ParseState;

    closed spec fn view(&self) -> ParseState {
        ParseState {
            weeks: weeks_view(self.weeks@),
            week: match self.week {
                Some(w) => Some(w@),
                None => None,
            },
            day: match self.day {
                Some(d) => Some(d@),
                None => None,
            },
        }
    }
}

impl Parser {
    /// Closes the open day (see `commit_day`).
    fn commit_day(&mut self)
        ensures
            final(self)@ == commit_day(old(self)@),
    {
        let day = self.day.take();
        match day {
            Some(d) => {
                let w = self.week.take();
                match w {
                    Some(mut w) => {
                        let ghost old_days = days_view(w.days@);
                        let ghost dv = d@;
                        w.days.push(d);
                        assert(days_view(w.days@) =~= old_days.push(dv));
                        self.week = Some(w);
                    },
                    None => {},
                }
            },
            None => {},
        }
    }

    /// Closes the open day and week (see `finish_spec`).
    fn commit_week(&mut self)
        ensures
            final(self).week is None,
            final(self).day is None,
            weeks_view(final(self).weeks@) == finish_spec(old(self)@),
    {
        self.commit_day();
        let w = self.week.take();
        match w {
            Some(w) => {
                let ghost old_weeks = weeks_view(self.weeks@);
                let ghost wv = w@;
                self.weeks.push(w);
                assert(weeks_view(self.weeks@) =~= old_weeks.push(wv));
            },
            None => {},
        }
    }

    /// Handles one line (already stripped of trailing whitespace).
    fn step(&mut self, line: &Vec<char>) -> (r: Result<(), ParseError>)
        ensures
            match step_spec(old(self)@, line@) {
                Ok(st) => r is Ok && final(self)@ == st,
                Err(e) => r matches Err(err) && err@ == e,
            },
    {
        if line.len() == 0 {
            return Ok(());
        }
        match week_header_chars(line) {
            Some(Err(())) => {
                return Err(ParseError::InvalidWeekHeader(string_of(line)));
            },
            Some(Ok(n)) => {
                self.commit_week();
                let days: Vec<DayEntry> = Vec::new();
                assert(days_view(days@) =~= Seq::<DayView>::empty());
                self.week = Some(WeekEntry { week_number: n, iso_year: None, days });
                return Ok(());
            },
            None => {},
        }
        let bullet = vec!['*', ' '];
        assert(bullet@ == bullet_marker());
        if starts_with(line, &bullet) {
            let rest = sub_chars(line, 2, line.len());
            assert(rest@ == line@.skip(2));
            let text = string_of(&clean_item_chars(&rest));
            let day = self.day.take();
            match day {
                Some(mut d) => {
                    let ghost old_items = texts_of(d.items@);
                    let ghost tv = text@;
                    d.items.push(text);
                    assert(texts_of(d.items@) =~= old_items.push(tv));
                    self.day = Some(d);
                },
                None => {},
            }
            return Ok(());
        }
        match parse_date_line(line) {
            Some(date) => {
                proof {
                    assert(date_of(date@)@ == date@);
                    assert(date == date_of(date@));
                }
                self.commit_day();
                let items: Vec<String> = Vec::new();
                assert(texts_of(items@) =~= Seq::<Seq<char>>::empty());
                self.day = Some(DayEntry { date, items });
            },
            None => {},
        }
        Ok(())
    }
}

/// Parses a worklog markdown string into structured data.
///
/// The parser is lenient: it skips any preamble before the first week header,
/// ignores blank lines, bullets outside a day and prose lines; a week header
/// whose number does not parse is an error that holds the line.
pub fn parse_worklog(input: &str) -> (r: Result<WorkLog, ParseError>)
    ensures
        match parse_spec(input@) {
            Ok(weeks) => r matches Ok(w) && w@ == weeks,
            Err(line) => r matches Err(e) && e@ == line,
        },
{
    let chars = chars_of(input);
    let raw = split_lines_exec(&chars);
    let ghost lines = worklog_lines(input@);
    assert(lines.len() == raw@.len());
    let weeks: Vec<WeekEntry> = Vec::new();
    assert(weeks_view(weeks@) =~= Seq::<WeekView>::empty());
    let mut p = Parser { weeks, week: None, day: None };
    let mut i: usize = 0;
    assert(lines.take(0) =~= Seq::<Seq<char>>::empty());
    while i < raw.len()
        invariant
            i <= raw.len(),
            lines == worklog_lines(input@),
            lines.len() == raw@.len(),
            views_of(raw@) == split_lines(input@),
            run_lines(lines.take(i as int)) == Ok::<ParseState, Seq<char>>(p@),
        decreases raw.len() - i,
    {
        let line = trim_end_chars(&raw[i]);
        assert(line@ == lines[i as int]);
        assert(lines.take(i + 1).drop_last() =~= lines.take(i as int));
        match p.step(&line) {
            Ok(()) => {},
            Err(e) => {
                proof {
                    lemma_run_err_sticky(lines, i + 1, e@);
                }
                return Err(e);
            },
        }
        i = i + 1;
    }
    assert(lines.take(raw.len() as int) =~= lines);
    p.commit_week();
    Ok(WorkLog { weeks: p.weeks })
}

} // verus!
