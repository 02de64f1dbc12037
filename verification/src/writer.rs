//! Writing structured worklog data back to its canonical markdown form.
use vstd::prelude::*;

use crate::date::{parsed_date, short_date_text, short_format, group_date};
use crate::parser::{DayEntry, DayView, WeekEntry, WeekView, WorkLog, days_view, texts_of, weeks_view};
use crate::parser::parse_spec;
use crate::roundtrip::{lemma_parse_write_round_trip, writable};
use crate::text::{contains_seq, decimal, lemma_contains_middle, lemma_contains_parts, lemma_contains_trans, push_chars};

verus! {

broadcast use vstd::string::group_string_axioms, group_date;

/// `## Week `, the beginning of a week header.
pub open spec fn week_prefix() -> Seq<char> {
    seq!['#', '#', ' ', 'W', 'e', 'e', 'k', ' ']
}

/// The header line of week `n`, without its newline.
pub open spec fn header_line(n: u32) -> Seq<char> {
    week_prefix() + decimal(n as nat)
}

/// The line of an item, without its newline.
pub open spec fn item_line(t: Seq<char>) -> Seq<char> {
    seq!['*', ' '] + t
}

/// The item lines of a day.
pub open spec fn items_text(items: Seq<Seq<char>>) -> Seq<char>
    decreases items.len(),
{
    if items.len() == 0 {
        Seq::empty()
    } else {
        items_text(items.drop_last()) + item_line(items.last()) + seq!['\n']
    }
}

/// A day: a blank line, the date line, a blank line and the items.
pub open spec fn day_text(d: DayView) -> Seq<char> {
    seq!['\n'] + short_date_text(d.date@) + seq!['\n', '\n'] + items_text(d.items)
}

/// The days of a week, one after the other.
pub open spec fn days_text(days: Seq<DayView>) -> Seq<char>
    decreases days.len(),
{
    if days.len() == 0 {
        Seq::empty()
    } else {
        days_text(days.drop_last()) + day_text(days.last())
    }
}

/// A week: its header line, then its days.
pub open spec fn week_text(w: WeekView) -> Seq<char> {
    header_line(w.week_number) + seq!['\n'] + days_text(w.days)
}

/// The whole worklog: its weeks, separated by blank lines.
pub open spec fn write_spec(weeks: Seq<WeekView>) -> Seq<char>
    decreases weeks.len(),
{
    if weeks.len() == 0 {
        Seq::empty()
    } else if weeks.len() == 1 {
        week_text(weeks[0])
    } else {
        write_spec(weeks.drop_last()) + seq!['\n'] + week_text(weeks.last())
    }
}

/// Every date of `weeks` reads back, with chrono and the worklog's date format,
/// from the text that `write_spec` writes for it.
pub open spec fn dates_read_back(weeks: Seq<WeekView>) -> bool {
    forall|i: int, j: int|
        0 <= i < weeks.len() && 0 <= j < weeks[i].days.len() ==> parsed_date(
            short_date_text(#[trigger] weeks[i].days[j].date@),
            short_format(),
        ) == Some(weeks[i].days[j].date@)
}

/// Writes structured worklog data back to canonical markdown.
///
/// The output uses plain (non-bold) week headers and the `%b %-d, %Y` date
/// format (e.g. `Mar 9, 2026`), matching the format that `parse_worklog` reads:
/// reading the result gives back the worklog whenever the markdown can hold it
/// (no ISO years, and every item non-empty, on one line, and not ending in
/// whitespace or a backslash).
pub fn write_worklog(worklog: &WorkLog) -> (r: String)
    ensures
        r@ == write_spec(worklog@),
        dates_read_back(worklog@),
        writable(worklog@) ==> parse_spec(r@) == Ok::<Seq<WeekView>, Seq<char>>(worklog@),
{
    let mut out = String::new();
    let ghost ws = worklog@;
    let n = worklog.weeks.len();
    let mut wi: usize = 0;
    while wi < n
        invariant
            n == worklog.weeks.len(),
            ws == worklog@,
            wi <= n,
            out@ == write_spec(ws.take(wi as int)),
            forall|i: int, j: int|
                0 <= i < wi && 0 <= j < ws[i].days.len() ==> parsed_date(
                    short_date_text(#[trigger] ws[i].days[j].date@),
                    short_format(),
                ) == Some(ws[i].days[j].date@),
        decreases n - wi,
    {
        let week = &worklog.weeks[wi];
        let ghost wv = ws[wi as int];
        assert(wv == week@);
        let ghost before = out@;
        if wi > 0 {
            out.append("\n");
        }
        proof {
            reveal_strlit("\n");
            reveal_strlit("## Week ");
        }
        out.append("## Week ");
        let mut num: Vec<char> = Vec::new();
        crate::text::push_decimal(&mut num, week.week_number as u64);
        push_chars(&mut out, &num);
        out.append("\n");
        let ghost week_start = out@;
        assert(week_start =~= before + (if wi > 0 {
            seq!['\n']
        } else {
            Seq::empty()
        }) + header_line(wv.week_number) + seq!['\n']);
        let nd = week.days.len();
        let mut di: usize = 0;
        assert(wv.days.take(0) =~= Seq::<DayView>::empty());
        while di < nd
            invariant
                nd == week.days.len(),
                wv == week@,
                ws == worklog@,
                wi < n,
                n == worklog.weeks.len(),
                wv == ws[wi as int],
                di <= nd,
                out@ == week_start + days_text(wv.days.take(di as int)),
                forall|j: int|
                    0 <= j < di ==> parsed_date(
                        short_date_text(#[trigger] wv.days[j].date@),
                        short_format(),
                    ) == Some(wv.days[j].date@),
            decreases nd - di,
        {
            let day = &week.days[di];
            let ghost dv = wv.days[di as int];
            assert(dv == day@);
            let ghost day_start = out@;
            proof {
                reveal_strlit("\n");
                reveal_strlit("\n\n");
                reveal_strlit("* ");
            }
            out.append("\n");
            let date_text = day.date.short_text();
            out.append(date_text.as_str());
            out.append("\n\n");
            let ghost items_start = out@;
            let ni = day.items.len();
            let mut ii: usize = 0;
            assert(dv.items.take(0) =~= Seq::<Seq<char>>::empty());
            while ii < ni
                invariant
                    ni == day.items.len(),
                    dv == day@,
                    ii <= ni,
                    out@ == items_start + items_text(dv.items.take(ii as int)),
                decreases ni - ii,
            {
                proof {
                    reveal_strlit("\n");
                    reveal_strlit("* ");
                }
                out.append("* ");
                out.append(day.items[ii].as_str());
                out.append("\n");
                assert(dv.items.take(ii + 1).drop_last() =~= dv.items.take(ii as int));
                ii = ii + 1;
            }
            assert(dv.items.take(ni as int) =~= dv.items);
            assert(wv.days.take(di + 1).drop_last() =~= wv.days.take(di as int));
            assert(out@ =~= day_start + day_text(dv));
            di = di + 1;
        }
        assert(wv.days.take(nd as int) =~= wv.days);
        assert(ws.take(wi + 1).drop_last() =~= ws.take(wi as int));
        proof {
            if wi == 0 {
                assert(ws.take(1) =~= seq![wv]);
            }
        }
        assert(out@ =~= write_spec(ws.take(wi + 1)));
        wi = wi + 1;
    }
    assert(ws.take(n as int) =~= ws);
    proof {
        if writable(ws) {
            lemma_parse_write_round_trip(ws);
        }
    }
    out
}


/// The item lines of a day hold each item's line.
proof fn lemma_items_text_holds(items: Seq<Seq<char>>, k: int)
    requires
        0 <= k < items.len(),
    ensures
        contains_seq(items_text(items), item_line(items[k]) + seq!['\n']),
    decreases items.len(),
{
    let a = items_text(items.drop_last());
    let b = item_line(items.last()) + seq!['\n'];
    assert(items_text(items) =~= a + b);
    lemma_contains_parts(a, b);
    if k < items.len() - 1 {
        lemma_items_text_holds(items.drop_last(), k);
        assert(items.drop_last()[k] == items[k]);
        lemma_contains_trans(a + b, a, item_line(items[k]) + seq!['\n']);
    }
}

/// The days of a week hold each day.
proof fn lemma_days_text_holds(days: Seq<DayView>, j: int)
    requires
        0 <= j < days.len(),
    ensures
        contains_seq(days_text(days), day_text(days[j])),
    decreases days.len(),
{
    let a = days_text(days.drop_last());
    let b = day_text(days.last());
    lemma_contains_parts(a, b);
    if j < days.len() - 1 {
        lemma_days_text_holds(days.drop_last(), j);
        assert(days.drop_last()[j] == days[j]);
        lemma_contains_trans(a + b, a, day_text(days[j]));
    }
}

/// The whole worklog holds each week.
proof fn lemma_write_holds_week(ws: Seq<WeekView>, i: int)
    requires
        0 <= i < ws.len(),
    ensures
        contains_seq(write_spec(ws), week_text(ws[i])),
    decreases ws.len(),
{
    if ws.len() == 1 {
        lemma_contains_parts(week_text(ws[0]), Seq::<char>::empty());
        assert(week_text(ws[0]) + Seq::<char>::empty() =~= week_text(ws[0]));
    } else {
        let a = write_spec(ws.drop_last());
        let b = week_text(ws.last());
        assert(write_spec(ws) == a + seq!['\n'] + b);
        if i < ws.len() - 1 {
            lemma_write_holds_week(ws.drop_last(), i);
            assert(ws.drop_last()[i] == ws[i]);
            assert(a + seq!['\n'] + b =~= a + (seq!['\n'] + b));
            lemma_contains_parts(a, seq!['\n'] + b);
            lemma_contains_trans(write_spec(ws), a, week_text(ws[i]));
        } else {
            lemma_contains_parts(a + seq!['\n'], b);
        }
    }
}

/// Writing puts every week's header, and every day's date line and item lines,
/// into the text: `## Week N`, the date as `Mar 9, 2026`, and `* item` on a
/// line of its own, for every item of every day, whatever the week's ISO year.
pub proof fn lemma_write_holds_every_item(ws: Seq<WeekView>, i: int, j: int, k: int)
    requires
        0 <= i < ws.len(),
        0 <= j < ws[i].days.len(),
        0 <= k < ws[i].days[j].items.len(),
    ensures
        contains_seq(write_spec(ws), header_line(ws[i].week_number) + seq!['\n']),
        contains_seq(write_spec(ws), short_date_text(ws[i].days[j].date@) + seq!['\n', '\n']),
        contains_seq(write_spec(ws), seq!['*', ' '] + ws[i].days[j].items[k] + seq!['\n']),
{
    let w = ws[i];
    let d = w.days[j];
    let page = write_spec(ws);
    lemma_write_holds_week(ws, i);
    lemma_contains_parts(header_line(w.week_number) + seq!['\n'], days_text(w.days));
    lemma_contains_trans(page, week_text(w), header_line(w.week_number) + seq!['\n']);
    lemma_contains_trans(page, week_text(w), days_text(w.days));
    lemma_days_text_holds(w.days, j);
    lemma_contains_trans(page, days_text(w.days), day_text(d));
    let dl = short_date_text(d.date@) + seq!['\n', '\n'];
    assert(day_text(d) =~= seq!['\n'] + dl + items_text(d.items));
    lemma_contains_middle(seq!['\n'], dl, items_text(d.items));
    lemma_contains_trans(page, day_text(d), dl);
    lemma_contains_parts(seq!['\n'] + dl, items_text(d.items));
    lemma_contains_trans(page, day_text(d), items_text(d.items));
    lemma_items_text_holds(d.items, k);
    assert(item_line(d.items[k]) + seq!['\n'] =~= seq!['*', ' '] + d.items[k] + seq!['\n']);
    lemma_contains_trans(page, items_text(d.items), item_line(d.items[k]) + seq!['\n']);
}

} // verus!
