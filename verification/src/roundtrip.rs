//! Reading back what the writer wrote: the proof that `parse_worklog` gives
//! back the weeks that `write_worklog` wrote, for every worklog whose items the
//! format can hold.
use vstd::prelude::*;

use crate::date::{
    date_of, group_date, month_abbrev, parsed_date, short_date_text, short_format, year_text, Ymd,
};
use crate::parser::{
    bold_marker, bullet_marker, clean_item_spec, commit_day, date_line_spec, finish_spec,
    header_inner, header_marker, initial_state, parse_spec, run_lines, step_spec, week_header_spec,
    week_word, worklog_lines, DayView, ParseState, WeekView,
};
use crate::text::{
    all_digits, decimal, digits_value, is_digit, is_ws, lemma_decimal_digits, parse_u32_spec,
    split_lines, starts_with_spec, strip_plus, trim_end_matches_spec, trim_end_spec, trim_spec,
    zero_pad,
};
use crate::writer::{
    day_text, days_text, dates_read_back, header_line, item_line, items_text, week_prefix,
    week_text, write_spec,
};

verus! {

broadcast use group_date;

// ---------------------------------------------------------------------------
// What the format can hold
// ---------------------------------------------------------------------------

/// An item that survives a write and a read: not empty, on one line, and not
/// ending in whitespace or a backslash (which the reader strips).
pub open spec fn writable_item(t: Seq<char>) -> bool {
    &&& t.len() > 0
    &&& !t.contains('\n')
    &&& !is_ws(t.last())
    &&& t.last() != '\\'
}

/// A worklog that survives a write and a read: no week has an ISO year (the
/// markdown does not hold one), and every item is writable.
pub open spec fn writable(weeks: Seq<WeekView>) -> bool {
    forall|i: int|
        0 <= i < weeks.len() ==> {
            &&& (#[trigger] weeks[i]).iso_year is None
            &&& forall|j: int, k: int|
                0 <= j < weeks[i].days.len() && 0 <= k < weeks[i].days[j].items.len()
                    ==> writable_item(#[trigger] weeks[i].days[j].items[k])
        }
}

// ---------------------------------------------------------------------------
// Text as a list of lines
// ---------------------------------------------------------------------------

/// The lines `ls`, each followed by a newline.
pub open spec fn lines_text(ls: Seq<Seq<char>>) -> Seq<char>
    decreases ls.len(),
{
    if ls.len() == 0 {
        Seq::empty()
    } else {
        lines_text(ls.drop_last()) + ls.last() + seq!['\n']
    }
}

/// No character of `s` is a newline.
pub open spec fn one_line(s: Seq<char>) -> bool {
    forall|i: int| 0 <= i < s.len() ==> s[i] != '\n'
}

/// `lines_text` of a concatenation is the concatenation of `lines_text`.
proof fn lemma_lines_text_append(a: Seq<Seq<char>>, b: Seq<Seq<char>>)
    ensures
        lines_text(a + b) == lines_text(a) + lines_text(b),
    decreases b.len(),
{
    if b.len() == 0 {
        assert(a + b =~= a);
        assert(lines_text(a) + lines_text(b) =~= lines_text(a));
    } else {
        assert((a + b).drop_last() =~= a + b.drop_last());
        lemma_lines_text_append(a, b.drop_last());
        assert(lines_text(a + b) =~= lines_text(a) + lines_text(b));
    }
}

/// Appending a piece without newlines extends the last piece.
proof fn lemma_split_extend(s: Seq<char>, t: Seq<char>)
    requires
        one_line(t),
    ensures
        split_lines(s + t) == split_lines(s).update(
            split_lines(s).len() - 1,
            split_lines(s).last() + t,
        ),
        split_lines(s + t).len() == split_lines(s).len(),
    decreases t.len(),
{
    crate::text::lemma_split_lines_nonempty(s);
    if t.len() == 0 {
        assert(s + t =~= s);
        assert(split_lines(s).last() + t =~= split_lines(s).last());
        assert(split_lines(s).update(split_lines(s).len() - 1, split_lines(s).last())
            =~= split_lines(s));
    } else {
        lemma_split_extend(s, t.drop_last());
        assert((s + t).drop_last() =~= s + t.drop_last());
        assert((s + t).last() == t.last());
        assert(t[t.len() - 1] != '\n');
        let p = split_lines(s);
        let prev = split_lines(s + t.drop_last());
        assert(prev == p.update(p.len() - 1, p.last() + t.drop_last()));
        assert(prev.last() == p.last() + t.drop_last());
        assert((p.last() + t.drop_last()).push(t.last()) =~= p.last() + t);
        assert(split_lines(s + t) == prev.update(prev.len() - 1, prev.last().push(t.last())));
        assert(split_lines(s + t) =~= p.update(p.len() - 1, p.last() + t));
    }
}

/// Splitting the text of lines gives the lines back, and an empty last piece.
proof fn lemma_split_lines_text(ls: Seq<Seq<char>>)
    requires
        forall|i: int| 0 <= i < ls.len() ==> one_line(#[trigger] ls[i]),
    ensures
        split_lines(lines_text(ls)) == ls.push(Seq::<char>::empty()),
    decreases ls.len(),
{
    if ls.len() == 0 {
        assert(split_lines(Seq::<char>::empty()) =~= seq![Seq::<char>::empty()]);
        assert(ls.push(Seq::<char>::empty()) =~= seq![Seq::<char>::empty()]);
    } else {
        let d = ls.drop_last();
        let l = ls.last();
        assert forall|i: int| 0 <= i < d.len() implies one_line(#[trigger] d[i]) by {
            assert(d[i] == ls[i]);
        }
        lemma_split_lines_text(d);
        let x = lines_text(d);
        assert(one_line(ls[ls.len() - 1]));
        lemma_split_extend(x, l);
        let full = x + l + seq!['\n'];
        assert(lines_text(ls) == full);
        assert(full.drop_last() =~= x + l);
        assert(full.last() == '\n');
        assert(split_lines(x + l) =~= d.push(l));
        assert(split_lines(full) =~= d.push(l).push(Seq::<char>::empty()));
        assert(d.push(l) =~= ls);
    }
}

// ---------------------------------------------------------------------------
// The lines that the writer writes
// ---------------------------------------------------------------------------

/// The lines of a day: blank, the date, blank, the items.
pub open spec fn day_lines(d: DayView) -> Seq<Seq<char>> {
    seq![Seq::<char>::empty(), short_date_text(d.date@), Seq::<char>::empty()]
        + d.items.map_values(|t: Seq<char>| item_line(t))
}

/// The lines of the days of a week.
pub open spec fn days_lines(days: Seq<DayView>) -> Seq<Seq<char>>
    decreases days.len(),
{
    if days.len() == 0 {
        Seq::empty()
    } else {
        days_lines(days.drop_last()) + day_lines(days.last())
    }
}

/// The lines of a week: its header, then its days.
pub open spec fn week_lines(w: WeekView) -> Seq<Seq<char>> {
    seq![header_line(w.week_number)] + days_lines(w.days)
}

/// The lines of a worklog: its weeks, separated by blank lines.
pub open spec fn doc_lines(ws: Seq<WeekView>) -> Seq<Seq<char>>
    decreases ws.len(),
{
    if ws.len() == 0 {
        Seq::empty()
    } else if ws.len() == 1 {
        week_lines(ws[0])
    } else {
        doc_lines(ws.drop_last()) + seq![Seq::<char>::empty()] + week_lines(ws.last())
    }
}

proof fn lemma_items_text(items: Seq<Seq<char>>)
    ensures
        items_text(items) == lines_text(items.map_values(|t: Seq<char>| item_line(t))),
    decreases items.len(),
{
    if items.len() > 0 {
        lemma_items_text(items.drop_last());
        assert(items.map_values(|t: Seq<char>| item_line(t)).drop_last() =~= items.drop_last().map_values(
            |t: Seq<char>| item_line(t),
        ));
    } else {
        assert(items.map_values(|t: Seq<char>| item_line(t)) =~= Seq::<Seq<char>>::empty());
    }
}

proof fn lemma_day_text(d: DayView)
    ensures
        day_text(d) == lines_text(day_lines(d)),
{
    reveal_with_fuel(lines_text, 4);
    let head = seq![Seq::<char>::empty(), short_date_text(d.date@), Seq::<char>::empty()];
    let tail = d.items.map_values(|t: Seq<char>| item_line(t));
    lemma_lines_text_append(head, tail);
    lemma_items_text(d.items);
    assert(head.drop_last().drop_last().drop_last() =~= Seq::<Seq<char>>::empty());
    assert(head.drop_last().drop_last() =~= seq![Seq::<char>::empty()]);
    assert(head.drop_last() =~= seq![Seq::<char>::empty(), short_date_text(d.date@)]);
    assert(lines_text(head) =~= seq!['\n'] + short_date_text(d.date@) + seq!['\n', '\n']);
    assert(day_text(d) =~= lines_text(head) + lines_text(tail));
}

proof fn lemma_days_text(days: Seq<DayView>)
    ensures
        days_text(days) == lines_text(days_lines(days)),
    decreases days.len(),
{
    if days.len() > 0 {
        lemma_days_text(days.drop_last());
        lemma_day_text(days.last());
        lemma_lines_text_append(days_lines(days.drop_last()), day_lines(days.last()));
    }
}

proof fn lemma_week_text(w: WeekView)
    ensures
        week_text(w) == lines_text(week_lines(w)),
{
    reveal_with_fuel(lines_text, 2);
    lemma_days_text(w.days);
    lemma_lines_text_append(seq![header_line(w.week_number)], days_lines(w.days));
    assert(seq![header_line(w.week_number)].drop_last() =~= Seq::<Seq<char>>::empty());
    assert(lines_text(seq![header_line(w.week_number)]) =~= header_line(w.week_number) + seq![
        '\n',
    ]);
}

proof fn lemma_write_text(ws: Seq<WeekView>)
    ensures
        write_spec(ws) == lines_text(doc_lines(ws)),
    decreases ws.len(),
{
    reveal_with_fuel(lines_text, 2);
    if ws.len() == 1 {
        lemma_week_text(ws[0]);
    } else if ws.len() > 1 {
        lemma_write_text(ws.drop_last());
        lemma_week_text(ws.last());
        let a = doc_lines(ws.drop_last());
        let sep = seq![Seq::<char>::empty()];
        lemma_lines_text_append(a + sep, week_lines(ws.last()));
        lemma_lines_text_append(a, sep);
        assert(sep.drop_last() =~= Seq::<Seq<char>>::empty());
        assert(lines_text(sep) =~= seq!['\n']);
    }
}

// ---------------------------------------------------------------------------
// Facts about single lines
// ---------------------------------------------------------------------------

/// A line that the reader sees as written: on one line, and without trailing
/// whitespace to strip.
pub open spec fn plain_line(l: Seq<char>) -> bool {
    one_line(l) && (l.len() == 0 || !is_ws(l.last()))
}

/// Every line of `ls` is plain.
pub open spec fn all_plain(ls: Seq<Seq<char>>) -> bool {
    forall|i: int| 0 <= i < ls.len() ==> plain_line(#[trigger] ls[i])
}

proof fn lemma_one_line_concat(a: Seq<char>, b: Seq<char>)
    requires
        one_line(a),
        one_line(b),
    ensures
        one_line(a + b),
{
    assert forall|i: int| 0 <= i < (a + b).len() implies (a + b)[i] != '\n' by {
        if i < a.len() {
            assert((a + b)[i] == a[i]);
        } else {
            assert((a + b)[i] == b[i - a.len()]);
        }
    }
}

proof fn lemma_all_plain_concat(a: Seq<Seq<char>>, b: Seq<Seq<char>>)
    requires
        all_plain(a),
        all_plain(b),
    ensures
        all_plain(a + b),
{
    assert forall|i: int| 0 <= i < (a + b).len() implies plain_line(#[trigger] (a + b)[i]) by {
        if i < a.len() {
            assert((a + b)[i] == a[i]);
        } else {
            assert((a + b)[i] == b[i - a.len()]);
        }
    }
}

/// A plain line is its own `trim_end`.
proof fn lemma_plain_trim_end(l: Seq<char>)
    requires
        plain_line(l),
    ensures
        trim_end_spec(l) == l,
{
}

/// Digits are neither whitespace nor newlines nor markers.
proof fn lemma_digit_chars(c: char)
    requires
        is_digit(c),
    ensures
        !is_ws(c),
        c != '\n',
        c != '#',
        c != '*',
        c != ',',
{
}

/// The digits of a decimal number form one line and do not end in whitespace.
proof fn lemma_decimal_line(n: nat)
    ensures
        one_line(decimal(n)),
        decimal(n).len() > 0,
        !is_ws(decimal(n).last()),
        is_digit(decimal(n).last()),
{
    lemma_decimal_digits(n);
    assert forall|i: int| 0 <= i < decimal(n).len() implies decimal(n)[i] != '\n' by {
        lemma_digit_chars(decimal(n)[i]);
    }
    lemma_digit_chars(decimal(n).last());
}

/// The padded digits of a number form one line and end in a digit.
proof fn lemma_zero_pad_line(n: nat, w: nat)
    ensures
        one_line(zero_pad(decimal(n), w)),
        zero_pad(decimal(n), w).len() > 0,
        is_digit(zero_pad(decimal(n), w).last()),
{
    lemma_decimal_line(n);
    let d = decimal(n);
    if d.len() < w {
        let z = Seq::new((w - d.len()) as nat, |i: int| '0');
        assert(one_line(z));
        lemma_one_line_concat(z, d);
        assert(zero_pad(d, w) == z + d);
        assert((z + d).last() == d.last());
    }
}

/// A year as chrono writes it forms one line and ends in a digit.
proof fn lemma_year_text_line(y: int)
    ensures
        one_line(year_text(y)),
        year_text(y).len() > 0,
        is_digit(year_text(y).last()),
{
    if 0 <= y <= 9999 {
        lemma_zero_pad_line(y as nat, 4);
    } else {
        let n: nat = if y < 0 {
            (-y) as nat
        } else {
            y as nat
        };
        lemma_zero_pad_line(n, 4);
        let z = zero_pad(decimal(n), 4);
        let sign = if y < 0 {
            seq!['-']
        } else {
            seq!['+']
        };
        assert(one_line(sign));
        lemma_one_line_concat(sign, z);
        assert(year_text(y) == sign + z);
        assert((sign + z).last() == z.last());
    }
}

/// The facts about a written date line that the reader relies on.
proof fn lemma_date_line_facts(t: Ymd)
    ensures
        plain_line(short_date_text(t)),
        short_date_text(t).len() > 0,
        short_date_text(t)[0] != '#',
        short_date_text(t)[0] != '*',
        !is_ws(short_date_text(t)[0]),
        short_date_text(t).contains(','),
        trim_spec(short_date_text(t)) == short_date_text(t),
{
    let m = month_abbrev(t.1 as int);
    let d = decimal(t.2 as nat);
    let y = year_text(t.0 as int);
    let s = short_date_text(t);
    assert(m.len() == 3 && one_line(m) && m[0] != '#' && m[0] != '*' && !is_ws(m[0]));
    lemma_decimal_line(t.2 as nat);
    lemma_year_text_line(t.0 as int);
    assert(one_line(seq![' ']));
    assert(one_line(seq![',', ' ']));
    lemma_one_line_concat(m, seq![' ']);
    lemma_one_line_concat(m + seq![' '], d);
    lemma_one_line_concat(m + seq![' '] + d, seq![',', ' ']);
    lemma_one_line_concat(m + seq![' '] + d + seq![',', ' '], y);
    assert(s == m + seq![' '] + d + seq![',', ' '] + y);
    assert(s.last() == y.last());
    lemma_digit_chars(y.last());
    assert(s[0] == m[0]);
    assert(s[4 + d.len() as int] == ',');
    crate::text::lemma_trim_fixed(s);
}

/// The facts about a written header line that the reader relies on.
proof fn lemma_header_line_facts(n: u32)
    ensures
        plain_line(header_line(n)),
        week_header_spec(header_line(n)) == Some(Ok::<u32, ()>(n)),
{
    let l = header_line(n);
    let d = decimal(n as nat);
    lemma_decimal_line(n as nat);
    lemma_decimal_digits(n as nat);
    assert(one_line(week_prefix()));
    lemma_one_line_concat(week_prefix(), d);
    assert(l.last() == d.last());
    assert(l.take(3) =~= header_marker());
    let after = l.skip(3);
    assert(after =~= seq!['W', 'e', 'e', 'k', ' '] + d);
    assert(!starts_with_spec(after, bold_marker()));
    assert(header_inner(after) == after);
    assert(after.take(5) =~= week_word());
    assert(after.skip(5) =~= d);
    lemma_digit_chars(d[0]);
    lemma_digit_chars(d.last());
    crate::text::lemma_trim_fixed(d);
    assert(strip_plus(d) == d);
    assert(all_digits(d));
    assert(parse_u32_spec(trim_spec(after.skip(5))) == Some(n));
}

/// The facts about a written item line that the reader relies on.
proof fn lemma_item_line_facts(t: Seq<char>)
    requires
        writable_item(t),
    ensures
        plain_line(item_line(t)),
        week_header_spec(item_line(t)) is None,
        starts_with_spec(item_line(t), bullet_marker()),
        clean_item_spec(item_line(t).skip(2)) == t,
        item_line(t).len() > 0,
{
    let l = item_line(t);
    assert(one_line(seq!['*', ' ']));
    assert(one_line(t)) by {
        assert forall|i: int| 0 <= i < t.len() implies t[i] != '\n' by {
            if t[i] == '\n' {
                assert(t.contains('\n'));
            }
        }
    }
    lemma_one_line_concat(seq!['*', ' '], t);
    assert(l.last() == t.last());
    assert(l[0] == '*');
    assert(!starts_with_spec(l, header_marker())) by {
        assert(l.take(3)[0] != header_marker()[0]);
    }
    assert(l.take(2) =~= bullet_marker());
    assert(l.skip(2) =~= t);
    assert(trim_end_matches_spec(t, '\\') == t);
    assert(trim_end_spec(t) == t);
}

/// The lines of a worklog whose items are writable are plain.
proof fn lemma_doc_lines_plain(ws: Seq<WeekView>)
    requires
        writable(ws),
    ensures
        all_plain(doc_lines(ws)),
    decreases ws.len(),
{
    if ws.len() > 0 {
        let w = ws.last();
        assert(ws.last() == ws[ws.len() - 1]);
        lemma_week_lines_plain(w, ws, ws.len() - 1);
        if ws.len() == 1 {
            assert(ws[0] == w);
        } else {
            assert forall|i: int| 0 <= i < ws.drop_last().len() implies {
                &&& (#[trigger] ws.drop_last()[i]).iso_year is None
                &&& forall|j: int, k: int|
                    0 <= j < ws.drop_last()[i].days.len() && 0 <= k
                        < ws.drop_last()[i].days[j].items.len() ==> writable_item(
                        #[trigger] ws.drop_last()[i].days[j].items[k],
                    )
            } by {
                assert(ws.drop_last()[i] == ws[i]);
            }
            lemma_doc_lines_plain(ws.drop_last());
            let sep = seq![Seq::<char>::empty()];
            assert(all_plain(sep)) by {
                assert forall|i: int| 0 <= i < sep.len() implies plain_line(#[trigger] sep[i]) by {
                    assert(sep[i] == Seq::<char>::empty());
                }
            }
            lemma_all_plain_concat(doc_lines(ws.drop_last()), sep);
            lemma_all_plain_concat(doc_lines(ws.drop_last()) + sep, week_lines(w));
        }
    }
}

/// The lines of week `ws[i]` are plain.
proof fn lemma_week_lines_plain(w: WeekView, ws: Seq<WeekView>, i: int)
    requires
        writable(ws),
        0 <= i < ws.len(),
        ws[i] == w,
    ensures
        all_plain(week_lines(w)),
{
    lemma_header_line_facts(w.week_number);
    let h = seq![header_line(w.week_number)];
    assert(all_plain(h)) by {
        assert forall|k: int| 0 <= k < h.len() implies plain_line(#[trigger] h[k]) by {
            assert(h[k] == header_line(w.week_number));
        }
    }
    lemma_days_lines_plain(w.days, ws, i, w.days.len() as int);
    assert(w.days.take(w.days.len() as int) == w.days);
    lemma_all_plain_concat(h, days_lines(w.days));
}

/// The lines of the first `k` days of week `ws[i]` are plain.
proof fn lemma_days_lines_plain(days: Seq<DayView>, ws: Seq<WeekView>, i: int, k: int)
    requires
        writable(ws),
        0 <= i < ws.len(),
        ws[i].days == days,
        0 <= k <= days.len(),
    ensures
        all_plain(days_lines(days.take(k))),
    decreases k,
{
    if k > 0 {
        lemma_days_lines_plain(days, ws, i, k - 1);
        assert(days.take(k).drop_last() =~= days.take(k - 1));
        let d = days[k - 1];
        assert(days.take(k).last() == d);
        lemma_date_line_facts(d.date@);
        let head = seq![Seq::<char>::empty(), short_date_text(d.date@), Seq::<char>::empty()];
        let tail = d.items.map_values(|t: Seq<char>| item_line(t));
        assert(all_plain(head)) by {
            assert forall|j: int| 0 <= j < head.len() implies plain_line(#[trigger] head[j]) by {
                if j == 1 {
                    assert(head[j] == short_date_text(d.date@));
                } else {
                    assert(head[j] == Seq::<char>::empty());
                }
            }
        }
        assert(all_plain(tail)) by {
            assert forall|j: int| 0 <= j < tail.len() implies plain_line(#[trigger] tail[j]) by {
                assert(ws[i].days[k - 1].items[j] == d.items[j]);
                assert(writable_item(ws[i].days[k - 1].items[j]));
                lemma_item_line_facts(d.items[j]);
            }
        }
        lemma_all_plain_concat(head, tail);
        lemma_all_plain_concat(days_lines(days.take(k - 1)), day_lines(d));
    } else {
        assert(days.take(0) =~= Seq::<DayView>::empty());
    }
}

// ---------------------------------------------------------------------------
// The reader on the written lines
// ---------------------------------------------------------------------------

/// The parser's state after `lines`, starting from `st`.
pub open spec fn run_from(st: ParseState, lines: Seq<Seq<char>>) -> Result<ParseState, Seq<char>>
    decreases lines.len(),
{
    if lines.len() == 0 {
        Ok(st)
    } else {
        match run_from(st, lines.drop_last()) {
            Ok(s) => step_spec(s, lines.last()),
            Err(e) => Err(e),
        }
    }
}

proof fn lemma_run_lines_from(lines: Seq<Seq<char>>)
    ensures
        run_lines(lines) == run_from(initial_state(), lines),
    decreases lines.len(),
{
    if lines.len() > 0 {
        lemma_run_lines_from(lines.drop_last());
    }
}

proof fn lemma_run_from_append(st: ParseState, a: Seq<Seq<char>>, b: Seq<Seq<char>>)
    ensures
        run_from(st, a + b) == match run_from(st, a) {
            Ok(s) => run_from(s, b),
            Err(e) => Err(e),
        },
    decreases b.len(),
{
    if b.len() == 0 {
        assert(a + b =~= a);
    } else {
        assert((a + b).drop_last() =~= a + b.drop_last());
        lemma_run_from_append(st, a, b.drop_last());
    }
}

/// The items of a day, read one after the other, join the open day.
proof fn lemma_run_items(st: ParseState, items: Seq<Seq<char>>)
    requires
        st.day is Some,
        forall|k: int| 0 <= k < items.len() ==> writable_item(#[trigger] items[k]),
    ensures
        run_from(st, items.map_values(|t: Seq<char>| item_line(t))) == Ok::<
            ParseState,
            Seq<char>,
        >(
            ParseState {
                weeks: st.weeks,
                week: st.week,
                day: Some(
                    DayView { date: st.day->0.date, items: st.day->0.items + items },
                ),
            },
        ),
    decreases items.len(),
{
    let lines = items.map_values(|t: Seq<char>| item_line(t));
    if items.len() == 0 {
        assert(st.day->0.items + items =~= st.day->0.items);
        assert(lines.len() == 0);
    } else {
        let prev = items.drop_last();
        assert forall|k: int| 0 <= k < prev.len() implies writable_item(#[trigger] prev[k]) by {
            assert(prev[k] == items[k]);
        }
        lemma_run_items(st, prev);
        assert(lines.drop_last() =~= prev.map_values(|t: Seq<char>| item_line(t)));
        let t = items.last();
        assert(writable_item(items[items.len() - 1]));
        lemma_item_line_facts(t);
        assert(lines.last() == item_line(t));
        assert((st.day->0.items + prev).push(t) =~= st.day->0.items + items);
    }
}

/// The lines of a day, read with a week open, leave that day open after the
/// days that were already in the week.
proof fn lemma_run_day(st: ParseState, d: DayView)
    requires
        commit_day(st).week is Some,
        forall|k: int| 0 <= k < d.items.len() ==> writable_item(#[trigger] d.items[k]),
        parsed_date(short_date_text(d.date@), short_format()) == Some(d.date@),
    ensures
        run_from(st, day_lines(d)) == Ok::<ParseState, Seq<char>>(
            ParseState { weeks: commit_day(st).weeks, week: commit_day(st).week, day: Some(d) },
        ),
{
    reveal_with_fuel(run_from, 4);
    let t = d.date@;
    let dl = short_date_text(t);
    lemma_date_line_facts(t);
    let head = seq![Seq::<char>::empty(), dl, Seq::<char>::empty()];
    let tail = d.items.map_values(|x: Seq<char>| item_line(x));
    lemma_run_from_append(st, head, tail);
    assert(week_header_spec(dl) is None);
    assert(!starts_with_spec(dl, crate::parser::bullet_marker())) by {
        assert(dl.take(2)[0] != crate::parser::bullet_marker()[0]);
    }
    assert(date_line_spec(dl) == Some(t));
    assert(date_of(t)@ == t);
    assert(date_of(t) == d.date);
    let c = commit_day(st);
    let opened = ParseState {
        weeks: c.weeks,
        week: c.week,
        day: Some(DayView { date: d.date, items: Seq::empty() }),
    };
    assert(head.drop_last().drop_last().drop_last() =~= Seq::<Seq<char>>::empty());
    assert(run_from(st, head.drop_last().drop_last()) == Ok::<ParseState, Seq<char>>(st));
    assert(run_from(st, head.drop_last()) == Ok::<ParseState, Seq<char>>(opened));
    assert(run_from(st, head) == Ok::<ParseState, Seq<char>>(opened));
    lemma_run_items(opened, d.items);
    assert(Seq::<Seq<char>>::empty() + d.items =~= d.items);
}

/// A week as the markdown holds it: a number and days, no ISO year.
pub open spec fn markdown_week(n: u32, days: Seq<DayView>) -> WeekView {
    WeekView { week_number: n, iso_year: None, days }
}

/// The lines of the first `k` days of a week, read after its header, leave
/// those days in the open week.
proof fn lemma_run_days(st: ParseState, n: u32, days: Seq<DayView>, k: int)
    requires
        st.week == Some(markdown_week(n, Seq::empty())),
        st.day is None,
        0 <= k <= days.len(),
        forall|j: int, i: int|
            0 <= j < days.len() && 0 <= i < days[j].items.len() ==> writable_item(
                #[trigger] days[j].items[i],
            ),
        forall|j: int|
            0 <= j < days.len() ==> parsed_date(
                short_date_text(#[trigger] days[j].date@),
                short_format(),
            ) == Some(days[j].date@),
    ensures
        run_from(st, days_lines(days.take(k))) matches Ok(s) && commit_day(s) == (ParseState {
            weeks: st.weeks,
            week: Some(markdown_week(n, days.take(k))),
            day: None,
        }),
    decreases k,
{
    if k == 0 {
        assert(days.take(0) =~= Seq::<DayView>::empty());
        assert(commit_day(st) =~= ParseState {
            weeks: st.weeks,
            week: Some(WeekView { week_number: n, iso_year: None, days: days.take(0) }),
            day: None,
        });
    } else {
        lemma_run_days(st, n, days, k - 1);
        assert(days.take(k).drop_last() =~= days.take(k - 1));
        let d = days[k - 1];
        assert(days.take(k).last() == d);
        let s0 = run_from(st, days_lines(days.take(k - 1)))->Ok_0;
        lemma_run_from_append(st, days_lines(days.take(k - 1)), day_lines(d));
        assert forall|i: int| 0 <= i < d.items.len() implies writable_item(#[trigger] d.items[i]) by {
            assert(days[k - 1].items[i] == d.items[i]);
        }
        lemma_run_day(s0, d);
        let s1 = ParseState { weeks: commit_day(s0).weeks, week: commit_day(s0).week, day: Some(d) };
        assert(days.take(k - 1).push(d) =~= days.take(k));
        assert(commit_day(s1) =~= ParseState {
            weeks: st.weeks,
            week: Some(WeekView { week_number: n, iso_year: None, days: days.take(k) }),
            day: None,
        });
    }
}

/// The lines of a week add that week to what the parser has read.
proof fn lemma_run_week(st: ParseState, w: WeekView)
    requires
        w.iso_year is None,
        forall|j: int, i: int|
            0 <= j < w.days.len() && 0 <= i < w.days[j].items.len() ==> writable_item(
                #[trigger] w.days[j].items[i],
            ),
        forall|j: int|
            0 <= j < w.days.len() ==> parsed_date(
                short_date_text(#[trigger] w.days[j].date@),
                short_format(),
            ) == Some(w.days[j].date@),
    ensures
        run_from(st, week_lines(w)) matches Ok(s) && finish_spec(s) == finish_spec(st).push(w),
{
    reveal_with_fuel(run_from, 2);
    let h = seq![header_line(w.week_number)];
    lemma_run_from_append(st, h, days_lines(w.days));
    lemma_header_line_facts(w.week_number);
    assert(h.drop_last() =~= Seq::<Seq<char>>::empty());
    let opened = ParseState {
        weeks: finish_spec(st),
        week: Some(WeekView { week_number: w.week_number, iso_year: None, days: Seq::empty() }),
        day: None,
    };
    assert(run_from(st, h) == Ok::<ParseState, Seq<char>>(opened));
    lemma_run_days(opened, w.week_number, w.days, w.days.len() as int);
    assert(w.days.take(w.days.len() as int) =~= w.days);
    assert(WeekView { week_number: w.week_number, iso_year: None, days: w.days } =~= w);
}

/// The lines of a worklog give back its weeks.
proof fn lemma_run_doc(ws: Seq<WeekView>)
    requires
        writable(ws),
        dates_read_back(ws),
    ensures
        run_from(initial_state(), doc_lines(ws)) matches Ok(s) && finish_spec(s) == ws,
    decreases ws.len(),
{
    reveal_with_fuel(run_from, 2);
    if ws.len() == 0 {
        assert(finish_spec(initial_state()) =~= ws);
    } else {
        let w = ws.last();
        assert(w == ws[ws.len() - 1]);
        assert forall|j: int, i: int|
            0 <= j < w.days.len() && 0 <= i < w.days[j].items.len() implies writable_item(
            #[trigger] w.days[j].items[i],
        ) by {
            assert(ws[ws.len() - 1].days[j].items[i] == w.days[j].items[i]);
        }
        assert forall|j: int| 0 <= j < w.days.len() implies parsed_date(
            short_date_text(#[trigger] w.days[j].date@),
            short_format(),
        ) == Some(w.days[j].date@) by {
            assert(ws[ws.len() - 1].days[j] == w.days[j]);
        }
        if ws.len() == 1 {
            lemma_run_week(initial_state(), w);
            assert(finish_spec(initial_state()) =~= Seq::<WeekView>::empty());
            assert(Seq::<WeekView>::empty().push(w) =~= ws);
        } else {
            let prev = ws.drop_last();
            assert forall|i: int| 0 <= i < prev.len() implies {
                &&& (#[trigger] prev[i]).iso_year is None
                &&& forall|j: int, k: int|
                    0 <= j < prev[i].days.len() && 0 <= k < prev[i].days[j].items.len()
                        ==> writable_item(#[trigger] prev[i].days[j].items[k])
            } by {
                assert(prev[i] == ws[i]);
            }
            assert forall|i: int, j: int|
                0 <= i < prev.len() && 0 <= j < prev[i].days.len() implies parsed_date(
                short_date_text(#[trigger] prev[i].days[j].date@),
                short_format(),
            ) == Some(prev[i].days[j].date@) by {
                assert(prev[i] == ws[i]);
            }
            lemma_run_doc(prev);
            let sep = seq![Seq::<char>::empty()];
            let a = doc_lines(prev);
            lemma_run_from_append(initial_state(), a + sep, week_lines(w));
            lemma_run_from_append(initial_state(), a, sep);
            assert(sep.drop_last() =~= Seq::<Seq<char>>::empty());
            let s0 = run_from(initial_state(), a)->Ok_0;
            assert(run_from(s0, sep) == Ok::<ParseState, Seq<char>>(s0));
            lemma_run_week(s0, w);
            assert(prev.push(w) =~= ws);
        }
    }
}

/// Reading what was written gives back the worklog, for every worklog that the
/// format can hold and whose dates read back.
pub proof fn lemma_parse_write_round_trip(ws: Seq<WeekView>)
    requires
        writable(ws),
        dates_read_back(ws),
    ensures
        parse_spec(write_spec(ws)) == Ok::<Seq<WeekView>, Seq<char>>(ws),
{
    let text = write_spec(ws);
    let dl = doc_lines(ws);
    lemma_write_text(ws);
    lemma_doc_lines_plain(ws);
    assert forall|i: int| 0 <= i < dl.len() implies one_line(#[trigger] dl[i]) by {
        assert(plain_line(dl[i]));
    }
    lemma_split_lines_text(dl);
    let lines = worklog_lines(text);
    assert forall|i: int| 0 <= i < dl.len() implies trim_end_spec(#[trigger] dl[i]) == dl[i] by {
        assert(plain_line(dl[i]));
        lemma_plain_trim_end(dl[i]);
    }
    assert(trim_end_spec(Seq::<char>::empty()) == Seq::<char>::empty());
    assert(lines =~= dl.push(Seq::<char>::empty()));
    lemma_run_lines_from(lines);
    lemma_run_doc(ws);
    assert(lines.drop_last() =~= dl);
    let s = run_from(initial_state(), dl)->Ok_0;
    assert(run_from(initial_state(), lines) == step_spec(s, Seq::<char>::empty()));
}


/// The weeks without their ISO years.
pub open spec fn without_iso_years(ws: Seq<WeekView>) -> Seq<WeekView> {
    ws.map_values(|w: WeekView| WeekView { week_number: w.week_number, iso_year: None, days: w.days })
}

/// Every item of the weeks can be written and read back.
pub open spec fn items_writable(ws: Seq<WeekView>) -> bool {
    forall|i: int, j: int, k: int|
        0 <= i < ws.len() && 0 <= j < ws[i].days.len() && 0 <= k < ws[i].days[j].items.len()
            ==> writable_item(#[trigger] ws[i].days[j].items[k])
}

/// Writing ignores ISO years: every item of every day is written whatever the
/// week's ISO year, and the text is the one written for the weeks without ISO
/// years.
pub proof fn lemma_write_ignores_iso_year(ws: Seq<WeekView>)
    ensures
        write_spec(ws) == write_spec(without_iso_years(ws)),
    decreases ws.len(),
{
    let c = without_iso_years(ws);
    if ws.len() == 1 {
        assert(week_text(ws[0]) == week_text(c[0]));
    } else if ws.len() > 1 {
        lemma_write_ignores_iso_year(ws.drop_last());
        assert(c.drop_last() =~= without_iso_years(ws.drop_last()));
        assert(c.last() == c[c.len() - 1]);
        assert(week_text(ws.last()) == week_text(c.last()));
    }
}

/// Reading what was written gives back the worklog without its ISO years
/// (which the markdown does not hold), for every worklog whose items the format
/// can hold and whose dates read back; this is what the export gives.
pub proof fn lemma_parse_write_drops_iso_years(ws: Seq<WeekView>)
    requires
        items_writable(ws),
        dates_read_back(ws),
    ensures
        parse_spec(write_spec(ws)) == Ok::<Seq<WeekView>, Seq<char>>(without_iso_years(ws)),
{
    let c = without_iso_years(ws);
    lemma_write_ignores_iso_year(ws);
    assert forall|i: int| 0 <= i < c.len() implies {
        &&& (#[trigger] c[i]).iso_year is None
        &&& forall|j: int, k: int|
            0 <= j < c[i].days.len() && 0 <= k < c[i].days[j].items.len() ==> writable_item(#[trigger] c[i].days[j].items[k])
    } by {
        assert forall|j: int, k: int| 0 <= j < c[i].days.len() && 0 <= k < c[i].days[j].items.len() implies writable_item(
            #[trigger] c[i].days[j].items[k],
        ) by {
            assert(c[i].days[j].items[k] == ws[i].days[j].items[k]);
        }
    }
    assert(writable(c));
    assert forall|i: int, j: int| 0 <= i < c.len() && 0 <= j < c[i].days.len() implies parsed_date(
        short_date_text(#[trigger] c[i].days[j].date@),
        short_format(),
    ) == Some(c[i].days[j].date@) by {
        assert(c[i].days[j] == ws[i].days[j]);
    }
    assert(dates_read_back(c));
    lemma_parse_write_round_trip(c);
}

} // verus!
