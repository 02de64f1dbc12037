//! Grouping entry rows by ISO week and by day, in the order in which weeks and
//! days first appear among the rows.
use vstd::prelude::*;

use crate::date::{group_date, iso_week_of, lemma_iso_week_monotone, valid_triple, week_key_le, ymd_lt, Date};
use crate::db::{rows_view, EntryRow, EntryView};
use crate::parser::{days_view, texts_of, weeks_view, DayEntry, DayView, WeekEntry, WeekView, WorkLog};

verus! {

broadcast use group_date;

/// An ISO week: its number and its ISO year.
pub type WeekKey = (u32, i32);

/// The ISO week of a date.
pub open spec fn key_of(d: Date) -> WeekKey {
    iso_week_of(d@.0, d@.1, d@.2)
}

/// The ISO weeks of the rows, each once, in the order of their first row.
pub open spec fn week_keys(rows: Seq<EntryView>) -> Seq<WeekKey>
    decreases rows.len(),
{
    if rows.len() == 0 {
        Seq::empty()
    } else {
        let p = week_keys(rows.drop_last());
        let k = key_of(rows.last().date);
        if p.contains(k) {
            p
        } else {
            p.push(k)
        }
    }
}

/// The dates of the rows in week `k`, each once, in the order of their first row.
pub open spec fn week_dates(rows: Seq<EntryView>, k: WeekKey) -> Seq<Date>
    decreases rows.len(),
{
    if rows.len() == 0 {
        Seq::empty()
    } else {
        let p = week_dates(rows.drop_last(), k);
        let d = rows.last().date;
        if key_of(d) == k && !p.contains(d) {
            p.push(d)
        } else {
            p
        }
    }
}

/// The positions of the rows dated `d`, in order.
pub open spec fn rows_on(rows: Seq<EntryView>, d: Date) -> Seq<usize>
    decreases rows.len(),
{
    if rows.len() == 0 {
        Seq::empty()
    } else {
        let p = rows_on(rows.drop_last(), d);
        if rows.last().date == d {
            p.push((rows.len() - 1) as usize)
        } else {
            p
        }
    }
}

/// The rows of one day: their date and their positions.
pub struct DayGroup {
    pub date: Date,
    pub rows: Vec<usize>,
}

/// The days of one ISO week.
pub struct WeekGroup {
    pub week_number: u32,
    pub iso_year: i32,
    pub days: Vec<DayGroup>,
}

/// `g` is the day `d` of `rows`.
pub open spec fn day_group_matches(g: DayGroup, rows: Seq<EntryView>, d: Date) -> bool {
    g.date == d && g.rows@ == rows_on(rows, d)
}

/// `g` is the week `k` of `rows`.
pub open spec fn week_group_matches(g: WeekGroup, rows: Seq<EntryView>, k: WeekKey) -> bool {
    &&& g.week_number == k.0
    &&& g.iso_year == k.1
    &&& g.days@.len() == week_dates(rows, k).len()
    &&& forall|l: int|
        0 <= l < g.days@.len() ==> day_group_matches(
            #[trigger] g.days@[l],
            rows,
            week_dates(rows, k)[l],
        )
}

/// `groups` are the weeks of `rows`, with their days and rows.
pub open spec fn groups_match(groups: Seq<WeekGroup>, rows: Seq<EntryView>) -> bool {
    &&& groups.len() == week_keys(rows).len()
    &&& forall|j: int|
        0 <= j < groups.len() ==> week_group_matches(#[trigger] groups[j], rows, week_keys(rows)[j])
}

/// Every date listed for week `k` lies in week `k`; the dates are distinct.
pub proof fn lemma_week_dates_in_week(rows: Seq<EntryView>, k: WeekKey)
    ensures
        forall|l: int|
            0 <= l < week_dates(rows, k).len() ==> key_of(#[trigger] week_dates(rows, k)[l]) == k,
        week_dates(rows, k).no_duplicates(),
    decreases rows.len(),
{
    if rows.len() > 0 {
        lemma_week_dates_in_week(rows.drop_last(), k);
    }
}

/// A week with a listed date, or a date with rows, is among the listed weeks;
/// a date with rows is among the listed dates of its week.
pub proof fn lemma_listed(rows: Seq<EntryView>, k: WeekKey, d: Date)
    ensures
        week_dates(rows, k).len() > 0 ==> week_keys(rows).contains(k),
        rows_on(rows, d).len() > 0 ==> week_keys(rows).contains(key_of(d)),
        rows_on(rows, d).len() > 0 ==> week_dates(rows, key_of(d)).contains(d),
        week_keys(rows).no_duplicates(),
    decreases rows.len(),
{
    if rows.len() > 0 {
        let p = rows.drop_last();
        lemma_listed(p, k, d);
        let kk = key_of(rows.last().date);
        if week_keys(p).contains(kk) {
        } else {
            assert(week_keys(rows) == week_keys(p).push(kk));
            assert(week_keys(rows)[week_keys(rows).len() - 1] == kk);
        }
        if week_dates(p, key_of(d)).contains(d) {
            let i = choose|i: int| 0 <= i < week_dates(p, key_of(d)).len() && week_dates(p, key_of(d))[i] == d;
            assert(week_dates(rows, key_of(d))[i] == d);
        }
        if week_keys(p).contains(k) {
            let i = choose|i: int| 0 <= i < week_keys(p).len() && week_keys(p)[i] == k;
            assert(week_keys(rows)[i] == k);
        }
        if week_keys(p).contains(key_of(d)) {
            let i = choose|i: int| 0 <= i < week_keys(p).len() && week_keys(p)[i] == key_of(d);
            assert(week_keys(rows)[i] == key_of(d));
        }
        if rows.last().date == d {
            if !week_dates(p, key_of(d)).contains(d) {
                let wd = week_dates(rows, key_of(d));
                assert(wd[wd.len() - 1] == d);
            }
            if !week_keys(p).contains(kk) {
                assert(week_keys(rows)[week_keys(rows).len() - 1] == kk);
            }
        }
    }
}

/// Groups the rows by ISO week, then by date: weeks and days come in the order of
/// their first row, and each day lists the positions of its rows in order.
pub fn group_rows(rows: &[EntryRow]) -> (groups: Vec<WeekGroup>)
    ensures
        groups_match(groups@, rows_view(rows@)),
{
    let ghost all = rows_view(rows@);
    let mut groups: Vec<WeekGroup> = Vec::new();
    let mut i: usize = 0;
    assert(all.take(0) =~= Seq::<EntryView>::empty());
    while i < rows.len()
        invariant
            i <= rows.len(),
            all == rows_view(rows@),
            groups_match(groups@, all.take(i as int)),
        decreases rows.len() - i,
    {
        let ghost prev = all.take(i as int);
        let ghost next = all.take(i + 1);
        assert(next.drop_last() =~= prev);
        assert(next.last() == rows@[i as int]@);
        let date = rows[i].date;
        let key = date.iso_week();
        assert(key == key_of(date));
        proof {
            lemma_listed(prev, key, date);
            lemma_week_dates_in_week(prev, key);
        }
        let mut j: usize = 0;
        let mut found: Option<usize> = None;
        while j < groups.len()
            invariant
                j <= groups.len(),
                groups_match(groups@, prev),
                found matches Some(f) ==> f < groups.len() && groups@[f as int].week_number
                    == key.0 && groups@[f as int].iso_year == key.1,
                found is None ==> forall|t: int|
                    0 <= t < j ==> !(groups@[t].week_number == key.0 && groups@[t].iso_year
                        == key.1),
            ensures
                groups_match(groups@, prev),
                found matches Some(f) ==> f < groups.len() && groups@[f as int].week_number
                    == key.0 && groups@[f as int].iso_year == key.1,
                found is None ==> forall|t: int|
                    0 <= t < groups.len() ==> !(groups@[t].week_number == key.0
                        && groups@[t].iso_year == key.1),
            decreases groups.len() - j,
        {
            if groups[j].week_number == key.0 && groups[j].iso_year == key.1 {
                found = Some(j);
                break;
            }
            j = j + 1;
        }
        proof {
            if found is None {
                assert forall|t: int| 0 <= t < week_keys(prev).len() implies week_keys(prev)[t]
                    != key by {
                    assert(week_group_matches(groups@[t], prev, week_keys(prev)[t]));
                }
            }
        }
        match found {
            None => {
                let mut first: Vec<usize> = Vec::new();
                first.push(i);
                let mut days: Vec<DayGroup> = Vec::new();
                days.push(DayGroup { date, rows: first });
                let ghost old_groups = groups@;
                groups.push(WeekGroup { week_number: key.0, iso_year: key.1, days });
                proof {
                    assert(week_keys(next) == week_keys(prev).push(key));
                    assert(week_dates(prev, key).len() == 0);
                    assert(rows_on(prev, date).len() == 0);
                    assert(week_dates(next, key) =~= seq![date]);
                    assert(rows_on(next, date) =~= seq![i]);
                    assert forall|t: int| 0 <= t < groups@.len() implies week_group_matches(
                        #[trigger] groups@[t],
                        next,
                        week_keys(next)[t],
                    ) by {
                        if t < old_groups.len() {
                            let kt = week_keys(prev)[t];
                            assert(groups@[t] == old_groups[t]);
                            assert(week_group_matches(old_groups[t], prev, kt));
                            assert(kt != key);
                            assert(week_dates(next, kt) == week_dates(prev, kt));
                            lemma_week_dates_in_week(prev, kt);
                            assert forall|l: int| 0 <= l < groups@[t].days@.len() implies day_group_matches(
                                #[trigger] groups@[t].days@[l],
                                next,
                                week_dates(next, kt)[l],
                            ) by {
                                let dl = week_dates(prev, kt)[l];
                                assert(key_of(dl) == kt);
                                assert(dl != date);
                                assert(rows_on(next, dl) == rows_on(prev, dl));
                                assert(day_group_matches(old_groups[t].days@[l], prev, dl));
                            }
                        } else {
                            assert(groups@[t].days@[0].rows@ =~= seq![i]);
                        }
                    }
                }
            },
            Some(j) => {
                let ghost wd = week_dates(prev, key);
                proof {
                    assert(week_keys(prev)[j as int] == key) by {
                        assert(week_group_matches(groups@[j as int], prev, week_keys(prev)[j as int]));
                    }
                    assert(week_keys(prev).contains(key));
                    assert(week_keys(next) == week_keys(prev));
                }
                let mut l: usize = 0;
                let mut dfound: Option<usize> = None;
                let nd = groups[j].days.len();
                while l < nd
                    invariant
                        j < groups.len(),
                        nd == groups@[j as int].days@.len(),
                        l <= nd,
                        week_group_matches(groups@[j as int], prev, key),
                        wd == week_dates(prev, key),
                        dfound matches Some(f) ==> f < nd && wd[f as int] == date,
                        dfound is None ==> forall|t: int| 0 <= t < l ==> wd[t] != date,
                    ensures
                        j < groups.len(),
                        week_group_matches(groups@[j as int], prev, key),
                        dfound matches Some(f) ==> f < nd && wd[f as int] == date,
                        dfound is None ==> forall|t: int| 0 <= t < nd ==> wd[t] != date,
                    decreases nd - l,
                {
                    assert(day_group_matches(groups@[j as int].days@[l as int], prev, wd[l as int]));
                    if groups[j].days[l].date == date {
                        dfound = Some(l);
                        break;
                    }
                    l = l + 1;
                }
                let ghost old_groups = groups@;
                match dfound {
                    Some(l) => {
                        groups[j].days[l].rows.push(i);
                        proof {
                            assert(wd.contains(date));
                            assert(week_dates(next, key) == wd);
                            assert(rows_on(next, date) == rows_on(prev, date).push(i));
                        }
                    },
                    None => {
                        let mut first: Vec<usize> = Vec::new();
                        first.push(i);
                        groups[j].days.push(DayGroup { date, rows: first });
                        proof {
                            assert(!wd.contains(date));
                            assert(rows_on(prev, date).len() == 0);
                            assert(week_dates(next, key) == wd.push(date));
                            assert(rows_on(next, date) =~= seq![i]);
                        }
                    },
                }
                proof {
                    lemma_week_dates_in_week(prev, key);
                    assert forall|t: int| 0 <= t < groups@.len() implies week_group_matches(
                        #[trigger] groups@[t],
                        next,
                        week_keys(next)[t],
                    ) by {
                        let kt = week_keys(prev)[t];
                        assert(week_group_matches(old_groups[t], prev, kt));
                        if t != j {
                            assert(groups@[t] == old_groups[t]);
                            assert(kt != key) by {
                                assert(week_keys(prev)[j as int] == key);
                            }
                            assert(week_dates(next, kt) == week_dates(prev, kt));
                            lemma_week_dates_in_week(prev, kt);
                            assert forall|l2: int| 0 <= l2 < groups@[t].days@.len() implies day_group_matches(
                                #[trigger] groups@[t].days@[l2],
                                next,
                                week_dates(next, kt)[l2],
                            ) by {
                                let dl = week_dates(prev, kt)[l2];
                                assert(key_of(dl) == kt);
                                assert(dl != date);
                                assert(rows_on(next, dl) == rows_on(prev, dl));
                                assert(day_group_matches(old_groups[t].days@[l2], prev, dl));
                            }
                        } else {
                            assert forall|l2: int| 0 <= l2 < groups@[t].days@.len() implies day_group_matches(
                                #[trigger] groups@[t].days@[l2],
                                next,
                                week_dates(next, key)[l2],
                            ) by {
                                if l2 < wd.len() {
                                    let dl = wd[l2];
                                    assert(week_dates(next, key)[l2] == dl);
                                    assert(day_group_matches(old_groups[t].days@[l2], prev, dl));
                                    if dl != date {
                                        assert(rows_on(next, dl) == rows_on(prev, dl));
                                        assert(groups@[t].days@[l2] == old_groups[t].days@[l2]);
                                    }
                                } else {
                                    assert(groups@[t].days@[l2].rows@ =~= seq![i]);
                                }
                            }
                        }
                    }
                }
            },
        }
        i = i + 1;
    }
    assert(all.take(rows.len() as int) =~= all);
    groups
}

/// `a` comes before `b`: earlier, or later when `descending`.
pub open spec fn date_before(a: Date, b: Date, descending: bool) -> bool {
    if descending {
        ymd_lt(b@, a@)
    } else {
        ymd_lt(a@, b@)
    }
}

/// The days are in strictly chronological order (reverse order when
/// `descending`).
pub open spec fn days_in_order(days: Seq<DayGroup>, descending: bool) -> bool {
    forall|i: int, j: int|
        0 <= i < j < days.len() ==> date_before(#[trigger] days[i].date, #[trigger] days[j].date, descending)
}

/// No two days share a date.
pub open spec fn distinct_dates(days: Seq<DayGroup>) -> bool {
    forall|i: int, j: int|
        0 <= i < days.len() && 0 <= j < days.len() && i != j ==> #[trigger] days[i].date != #[trigger] days[j].date
}

/// Sorts days with distinct dates chronologically (newest first when
/// `descending`); the result holds the same days.
pub fn sort_days(days: Vec<DayGroup>, descending: bool) -> (r: Vec<DayGroup>)
    requires
        distinct_dates(days@),
    ensures
        r@.len() == days@.len(),
        days_in_order(r@, descending),
        forall|x: DayGroup| r@.contains(x) <==> days@.contains(x),
{
    let ghost orig = days@;
    let mut rest = days;
    let mut out: Vec<DayGroup> = Vec::new();
    while rest.len() > 0
        invariant
            rest@ == orig.take(rest@.len() as int),
            rest@.len() <= orig.len(),
            out@.len() + rest@.len() == orig.len(),
            distinct_dates(orig),
            days_in_order(out@, descending),
            forall|x: DayGroup| out@.contains(x) <==> orig.skip(rest@.len() as int).contains(x),
        decreases rest@.len(),
    {
        let ghost k = rest@.len() - 1;
        let x = rest.pop().unwrap();
        assert(x == orig[k]);
        assert(rest@ =~= orig.take(k));
        proof {
            assert forall|q: int| 0 <= q < out@.len() implies out@[q].date != x.date by {
                assert(out@.contains(out@[q]));
                let w = choose|w: int| 0 <= w < orig.skip(k + 1).len() && #[trigger] orig.skip(k + 1)[w] == out@[q];
                assert(orig[k + 1 + w] == out@[q]);
            }
        }
        let mut p: usize = 0;
        while p < out.len() && out[p].date.is_before(&x.date) != descending
            invariant
                p <= out@.len(),
                forall|q: int| 0 <= q < p ==> date_before(#[trigger] out@[q].date, x.date, descending),
                forall|q: int| 0 <= q < out@.len() ==> out@[q].date != x.date,
            decreases out@.len() - p,
        {
            proof {
                assert(out@[p as int].date@ != x.date@) by {
                    if out@[p as int].date@ == x.date@ {
                        assert(out@[p as int].date == x.date);
                    }
                }
            }
            p = p + 1;
        }
        proof {
            if p < out@.len() {
                assert(out@[p as int].date@ != x.date@) by {
                    if out@[p as int].date@ == x.date@ {
                        assert(out@[p as int].date == x.date);
                    }
                }
                assert(date_before(x.date, out@[p as int].date, descending));
            }
        }
        let ghost before = out@;
        out.insert(p, x);
        proof {
            assert(out@ =~= before.insert(p as int, x));
            assert forall|i: int, j: int| 0 <= i < j < out@.len() implies date_before(
                #[trigger] out@[i].date,
                #[trigger] out@[j].date,
                descending,
            ) by {
                if i < p && j < p {
                    assert(out@[i] == before[i] && out@[j] == before[j]);
                } else if i < p && j == p {
                    assert(out@[i] == before[i]);
                } else if i < p {
                    assert(out@[i] == before[i] && out@[j] == before[j - 1]);
                    assert(date_before(before[i].date, before[p as int].date, descending) || p == j - 1);
                } else if i == p {
                    assert(out@[j] == before[j - 1]);
                    assert(date_before(x.date, before[p as int].date, descending));
                } else {
                    assert(out@[i] == before[i - 1] && out@[j] == before[j - 1]);
                }
            }
            assert(orig.skip(k) =~= seq![x] + orig.skip(k + 1));
            assert forall|y: DayGroup| out@.contains(y) <==> orig.skip(k).contains(y) by {
                if out@.contains(y) {
                    let w = choose|w: int| 0 <= w < out@.len() && #[trigger] out@[w] == y;
                    if w < p {
                        assert(before[w] == y);
                        assert(before.contains(y));
                    } else if w > p {
                        assert(before[w - 1] == y);
                        assert(before.contains(y));
                    }
                    if y != x {
                        assert(orig.skip(k + 1).contains(y));
                        let v = choose|v: int| 0 <= v < orig.skip(k + 1).len() && #[trigger] orig.skip(k + 1)[v] == y;
                        assert(orig.skip(k)[v + 1] == y);
                    } else {
                        assert(orig.skip(k)[0] == y);
                    }
                }
                if orig.skip(k).contains(y) {
                    let v = choose|v: int| 0 <= v < orig.skip(k).len() && #[trigger] orig.skip(k)[v] == y;
                    if v == 0 {
                        assert(out@[p as int] == y);
                    } else {
                        assert(orig.skip(k + 1)[v - 1] == y);
                        assert(before.contains(y));
                        let w = choose|w: int| 0 <= w < before.len() && #[trigger] before[w] == y;
                        if w < p {
                            assert(out@[w] == y);
                        } else {
                            assert(out@[w + 1] == y);
                        }
                    }
                }
            }
        }
    }
    assert(orig.skip(0) =~= orig);
    out
}

/// Every position listed for date `d` is a row dated `d`, and positions rise.
pub proof fn lemma_rows_on_valid(rows: Seq<EntryView>, d: Date)
    requires
        rows.len() <= usize::MAX,
    ensures
        forall|t: int|
            0 <= t < rows_on(rows, d).len() ==> (#[trigger] rows_on(rows, d)[t]) < rows.len()
                && rows[rows_on(rows, d)[t] as int].date == d,
    decreases rows.len(),
{
    if rows.len() > 0 {
        lemma_rows_on_valid(rows.drop_last(), d);
        let p = rows_on(rows.drop_last(), d);
        let r = rows_on(rows, d);
        assert forall|t: int| 0 <= t < r.len() implies (#[trigger] r[t]) < rows.len() && rows[r[t] as int].date == d by {
            if t < p.len() {
                assert(r[t] == p[t]);
                assert(rows[p[t] as int] == rows.drop_last()[p[t] as int]);
            } else {
                assert(rows.last().date == d);
                assert(r[t] == rows.len() - 1);
            }
        }
    }
}

/// The item texts of the rows dated `d`, in row order.
pub open spec fn items_on(rows: Seq<EntryView>, d: Date) -> Seq<Seq<char>> {
    rows_on(rows, d).map_values(|i: usize| rows[i as int].item_text)
}

/// Some day of `days` is dated `d`.
pub open spec fn day_listed(days: Seq<DayView>, d: Date) -> bool {
    exists|m: int| 0 <= m < days.len() && #[trigger] days[m].date == d
}

/// `w` is week `k` of `rows`: its number and ISO year, its days (each date of
/// the week once, in order, newest first when `descending`), and each day's
/// items in row order.
pub open spec fn week_of_rows(w: WeekView, rows: Seq<EntryView>, k: WeekKey, descending: bool) -> bool {
    &&& w.week_number == k.0
    &&& w.iso_year == Some(k.1)
    &&& w.days.len() == week_dates(rows, k).len()
    &&& forall|l: int| 0 <= l < w.days.len() ==> week_dates(rows, k).contains(#[trigger] w.days[l].date)
    &&& forall|l: int| 0 <= l < week_dates(rows, k).len() ==> #[trigger] day_listed(w.days, week_dates(rows, k)[l])
    &&& forall|l: int, m: int|
        0 <= l < m < w.days.len() ==> date_before(#[trigger] w.days[l].date, #[trigger] w.days[m].date, descending)
    &&& forall|l: int| 0 <= l < w.days.len() ==> (#[trigger] w.days[l]).items == items_on(rows, w.days[l].date)
}

/// `ws` are the weeks of `rows`, in the order in which they first appear.
pub open spec fn worklog_of_rows(ws: Seq<WeekView>, rows: Seq<EntryView>, descending: bool) -> bool {
    &&& ws.len() == week_keys(rows).len()
    &&& forall|j: int| 0 <= j < ws.len() ==> week_of_rows(#[trigger] ws[j], rows, week_keys(rows)[j], descending)
}

/// The item texts of the rows at the positions `positions`.
fn texts_at(rows: &[EntryRow], positions: &Vec<usize>) -> (r: Vec<String>)
    requires
        forall|t: int| 0 <= t < positions@.len() ==> (#[trigger] positions@[t]) < rows@.len(),
    ensures
        texts_of(r@) == positions@.map_values(|i: usize| rows_view(rows@)[i as int].item_text),
{
    let mut out: Vec<String> = Vec::new();
    let mut t: usize = 0;
    while t < positions.len()
        invariant
            t <= positions@.len(),
            forall|q: int| 0 <= q < positions@.len() ==> (#[trigger] positions@[q]) < rows@.len(),
            texts_of(out@) =~= positions@.take(t as int).map_values(|i: usize| rows_view(rows@)[i as int].item_text),
        decreases positions@.len() - t,
    {
        let s = rows[positions[t]].item_text.clone();
        let ghost old = texts_of(out@);
        out.push(s);
        assert(texts_of(out@) =~= old.push(s@));
        assert(positions@.take(t + 1) =~= positions@.take(t as int).push(positions@[t as int]));
        assert(rows_view(rows@)[positions@[t as int] as int].item_text == s@);
        t = t + 1;
        assert(texts_of(out@) =~= positions@.take(t as int).map_values(|i: usize| rows_view(rows@)[i as int].item_text));
    }
    assert(positions@.take(positions@.len() as int) =~= positions@);
    out
}

/// Groups rows into a worklog: one week per ISO week, in the order of their
/// first row, with ISO years; within each week the days in date order (newest
/// first when `descending`); within each day the items in row order.
pub fn worklog_from_rows(rows: &Vec<EntryRow>, descending: bool) -> (r: WorkLog)
    ensures
        worklog_of_rows(r@, rows_view(rows@), descending),
{
    let ghost rv = rows_view(rows@);
    let mut groups = group_rows(rows.as_slice());
    let ghost orig = groups@;
    let mut weeks: Vec<WeekEntry> = Vec::new();
    while groups.len() > 0
        invariant
            rv == rows_view(rows@),
            groups_match(orig, rv),
            groups@ == orig.skip(weeks@.len() as int),
            weeks@.len() <= orig.len(),
            forall|j: int| 0 <= j < weeks@.len() ==> week_of_rows(#[trigger] weeks_view(weeks@)[j], rv, week_keys(rv)[j], descending),
        decreases groups@.len(),
    {
        let ghost j = weeks@.len() as int;
        let g = groups.remove(0);
        assert(g == orig[j]);
        assert(groups@ =~= orig.skip(j + 1));
        let ghost k = week_keys(rv)[j];
        assert(week_group_matches(g, rv, k));
        proof {
            lemma_week_dates_in_week(rv, k);
            assert(distinct_dates(g.days@)) by {
                assert forall|a: int, b: int| 0 <= a < g.days@.len() && 0 <= b < g.days@.len() && a != b implies #[trigger] g.days@[a].date != #[trigger] g.days@[b].date by {
                    assert(day_group_matches(g.days@[a], rv, week_dates(rv, k)[a]));
                    assert(day_group_matches(g.days@[b], rv, week_dates(rv, k)[b]));
                }
            }
        }
        let ghost gdays = g.days@;
        let sorted = sort_days(g.days, descending);
        let mut days: Vec<DayEntry> = Vec::new();
        let mut t: usize = 0;
        while t < sorted.len()
            invariant
                t <= sorted@.len(),
                rv == rows_view(rows@),
                sorted@.len() == gdays.len(),
                forall|x: DayGroup| sorted@.contains(x) <==> gdays.contains(x),
                gdays.len() == week_dates(rv, k).len(),
                rv.len() == rows@.len(),
                forall|l: int| 0 <= l < gdays.len() ==> day_group_matches(#[trigger] gdays[l], rv, week_dates(rv, k)[l]),
                days@.len() == t,
                forall|l: int| 0 <= l < t ==> (#[trigger] days_view(days@)[l]).date == sorted@[l].date
                    && days_view(days@)[l].items == items_on(rv, sorted@[l].date),
            decreases sorted@.len() - t,
        {
            let dg = &sorted[t];
            let _n = rows.len();
            proof {
                assert(sorted@.contains(sorted@[t as int]));
                assert(gdays.contains(sorted@[t as int]));
                let w = choose|w: int| 0 <= w < gdays.len() && #[trigger] gdays[w] == sorted@[t as int];
                assert(day_group_matches(gdays[w], rv, week_dates(rv, k)[w]));
                lemma_rows_on_valid(rv, dg.date);
            }
            let items = texts_at(rows.as_slice(), &dg.rows);
            let ghost old_days = days_view(days@);
            days.push(DayEntry { date: dg.date, items });
            assert(days_view(days@) =~= old_days.push(days@[t as int]@));
            t = t + 1;
        }
        let ghost old_weeks = weeks_view(weeks@);
        let ghost dv = days_view(days@);
        let we = WeekEntry { week_number: g.week_number, iso_year: Some(g.iso_year), days };
        weeks.push(we);
        proof {
            assert(weeks_view(weeks@) =~= old_weeks.push(we@));
            let w = weeks_view(weeks@)[j];
            assert(w == we@);
            assert forall|l: int| 0 <= l < w.days.len() implies week_dates(rv, k).contains(#[trigger] w.days[l].date) by {
                assert(sorted@.contains(sorted@[l]));
                let q = choose|q: int| 0 <= q < gdays.len() && #[trigger] gdays[q] == sorted@[l];
                assert(day_group_matches(gdays[q], rv, week_dates(rv, k)[q]));
            }
            assert forall|l: int| 0 <= l < week_dates(rv, k).len() implies #[trigger] day_listed(w.days, week_dates(rv, k)[l]) by {
                assert(day_group_matches(gdays[l], rv, week_dates(rv, k)[l]));
                assert(gdays.contains(gdays[l]));
                assert(sorted@.contains(gdays[l]));
                let m = choose|m: int| 0 <= m < sorted@.len() && #[trigger] sorted@[m] == gdays[l];
                assert(w.days[m].date == sorted@[m].date);
            }
            assert forall|l: int, m: int| 0 <= l < m < w.days.len() implies date_before(#[trigger] w.days[l].date, #[trigger] w.days[m].date, descending) by {
                assert(w.days[l].date == sorted@[l].date);
                assert(w.days[m].date == sorted@[m].date);
            }
            assert(week_of_rows(w, rv, k, descending));
            assert forall|q: int| 0 <= q < weeks@.len() implies week_of_rows(#[trigger] weeks_view(weeks@)[q], rv, week_keys(rv)[q], descending) by {
                if q < j {
                    assert(weeks_view(weeks@)[q] == old_weeks[q]);
                }
            }
        }
    }
    proof {
        assert(orig.skip(weeks@.len() as int).len() == 0);
    }
    WorkLog { weeks }
}


/// The positions listed for date `d` are exactly the rows dated `d`, each once,
/// in rising order.
pub proof fn lemma_rows_on_exact(rows: Seq<EntryView>, d: Date)
    requires
        rows.len() <= usize::MAX,
    ensures
        forall|t: int|
            0 <= t < rows_on(rows, d).len() ==> (#[trigger] rows_on(rows, d)[t]) < rows.len()
                && rows[rows_on(rows, d)[t] as int].date == d,
        forall|t1: int, t2: int|
            0 <= t1 < t2 < rows_on(rows, d).len() ==> #[trigger] rows_on(rows, d)[t1] < #[trigger] rows_on(rows, d)[t2],
        forall|i: int| 0 <= i < rows.len() && rows[i].date == d ==> rows_on(rows, d).contains(i as usize),
    decreases rows.len(),
{
    lemma_rows_on_valid(rows, d);
    if rows.len() > 0 {
        let p = rows.drop_last();
        lemma_rows_on_exact(p, d);
        lemma_rows_on_valid(p, d);
        let r = rows_on(rows, d);
        let rp = rows_on(p, d);
        assert forall|t1: int, t2: int| 0 <= t1 < t2 < r.len() implies #[trigger] r[t1] < #[trigger] r[t2] by {
            assert(r[t1] == rp[t1]);
            if t2 < rp.len() {
                assert(r[t2] == rp[t2]);
            }
        }
        assert forall|i: int| 0 <= i < rows.len() && rows[i].date == d implies r.contains(i as usize) by {
            if i < p.len() {
                assert(p[i] == rows[i]);
                let t = choose|t: int| 0 <= t < rp.len() && rp[t] == i as usize;
                assert(r[t] == rp[t]);
            } else {
                assert(r[r.len() - 1] == i as usize);
            }
        }
    }
}

/// Each week listed holds a row, and each row's week is listed.
pub proof fn lemma_week_keys_rows(rows: Seq<EntryView>)
    ensures
        forall|j: int|
            #![trigger week_keys(rows)[j]]
            0 <= j < week_keys(rows).len() ==> exists|i: int|
                0 <= i < rows.len() && key_of(#[trigger] rows[i].date) == week_keys(rows)[j],
        forall|i: int| 0 <= i < rows.len() ==> week_keys(rows).contains(key_of(#[trigger] rows[i].date)),
    decreases rows.len(),
{
    if rows.len() > 0 {
        let p = rows.drop_last();
        lemma_week_keys_rows(p);
        let kl = key_of(rows.last().date);
        assert forall|j: int| #![trigger week_keys(rows)[j]] 0 <= j < week_keys(rows).len() implies exists|i: int|
            0 <= i < rows.len() && key_of(#[trigger] rows[i].date) == week_keys(rows)[j] by {
            if j < week_keys(p).len() {
                let i = choose|i: int| 0 <= i < p.len() && key_of(#[trigger] p[i].date) == week_keys(p)[j];
                assert(rows[i] == p[i]);
                assert(week_keys(rows)[j] == week_keys(p)[j]);
            } else {
                assert(rows[rows.len() - 1] == rows.last());
            }
        }
        assert forall|i: int| 0 <= i < rows.len() implies week_keys(rows).contains(key_of(#[trigger] rows[i].date)) by {
            if i < p.len() {
                assert(rows[i] == p[i]);
                let q = choose|q: int| 0 <= q < week_keys(p).len() && week_keys(p)[q] == key_of(p[i].date);
                assert(week_keys(rows)[q] == week_keys(p)[q]);
            } else {
                assert(rows[i] == rows.last());
                if !week_keys(p).contains(kl) {
                    assert(week_keys(rows)[week_keys(rows).len() - 1] == kl);
                }
            }
        }
    }
}

/// Weeks are listed in the order of their first row: before a row of week
/// `j2` there is a row of each earlier week `j1`.
proof fn lemma_first_occurrence_at(rows: Seq<EntryView>, j1: int, j2: int, i2: int)
    requires
        0 <= j1 < j2 < week_keys(rows).len(),
        0 <= i2 < rows.len(),
        key_of(rows[i2].date) == week_keys(rows)[j2],
    ensures
        exists|i1: int| 0 <= i1 < i2 && key_of(#[trigger] rows[i1].date) == week_keys(rows)[j1],
    decreases rows.len(),
{
    let p = rows.drop_last();
    let kl = key_of(rows.last().date);
    let kp = week_keys(p);
    let kr = week_keys(rows);
    lemma_week_keys_rows(p);
    if kp.contains(kl) {
        assert(kr == kp);
    } else {
        assert(kr == kp.push(kl));
    }
    assert(kr[j1] == kp[j1]);
    if i2 < p.len() {
        assert(rows[i2] == p[i2]);
        if j2 >= kp.len() {
            assert(kp.contains(key_of(p[i2].date)));
            assert(kr[j2] == kl);
            assert(false);
        }
        assert(kr[j2] == kp[j2]);
        lemma_first_occurrence_at(p, j1, j2, i2);
        let i1 = choose|i1: int| 0 <= i1 < i2 && key_of(#[trigger] p[i1].date) == kp[j1];
        assert(rows[i1] == p[i1]);
        assert(key_of(rows[i1].date) == kr[j1]);
    } else {
        assert(exists|i1: int| 0 <= i1 < p.len() && key_of(#[trigger] p[i1].date) == kp[j1]);
        let i1 = choose|i1: int| 0 <= i1 < p.len() && key_of(#[trigger] p[i1].date) == kp[j1];
        assert(rows[i1] == p[i1]);
        assert(key_of(rows[i1].date) == kr[j1]);
    }
}

/// Each row's date is listed for its week, and each listed date has a row.
pub proof fn lemma_week_dates_rows(rows: Seq<EntryView>, k: WeekKey)
    ensures
        forall|i: int| 0 <= i < rows.len() && key_of(rows[i].date) == k ==> week_dates(rows, k).contains(#[trigger] rows[i].date),
        forall|l: int| 0 <= l < week_dates(rows, k).len() ==> rows_on(rows, #[trigger] week_dates(rows, k)[l]).len() > 0,
    decreases rows.len(),
{
    if rows.len() > 0 {
        let p = rows.drop_last();
        lemma_week_dates_rows(p, k);
        let wr = week_dates(rows, k);
        let wp = week_dates(p, k);
        assert forall|i: int| 0 <= i < rows.len() && key_of(rows[i].date) == k implies wr.contains(#[trigger] rows[i].date) by {
            if i < p.len() {
                assert(rows[i] == p[i]);
                let q = choose|q: int| 0 <= q < wp.len() && wp[q] == p[i].date;
                assert(wr[q] == wp[q]);
            } else {
                assert(rows[i] == rows.last());
                if !wp.contains(rows.last().date) {
                    assert(wr[wr.len() - 1] == rows.last().date);
                }
            }
        }
        assert forall|l: int| 0 <= l < wr.len() implies rows_on(rows, #[trigger] wr[l]).len() > 0 by {
            if l < wp.len() {
                assert(wr[l] == wp[l]);
                assert(rows_on(p, wp[l]).len() > 0);
            }
        }
    }
}

/// The weeks built from rows hold every row exactly once: no two weeks share an
/// ISO week and each day lies in its week; no two days share a date; each day
/// holds the items of exactly the rows of its date (at least one), in row
/// order; every row's date has a day; and the weeks come in the order of their
/// first row.
pub proof fn lemma_worklog_rows_partition(ws: Seq<WeekView>, rows: Seq<EntryView>, descending: bool)
    requires
        worklog_of_rows(ws, rows, descending),
        rows.len() <= usize::MAX,
    ensures
        forall|j1: int, j2: int|
            0 <= j1 < j2 < ws.len() ==> (#[trigger] ws[j1].week_number, ws[j1].iso_year) != (
                #[trigger] ws[j2].week_number,
                ws[j2].iso_year,
            ),
        forall|j: int, l: int|
            0 <= j < ws.len() && 0 <= l < ws[j].days.len() ==> ws[j].iso_year == Some(
                key_of(#[trigger] ws[j].days[l].date).1,
            ) && ws[j].week_number == key_of(ws[j].days[l].date).0,
        forall|j: int, l: int|
            0 <= j < ws.len() && 0 <= l < ws[j].days.len() ==> (#[trigger] ws[j].days[l]).items == items_on(
                rows,
                ws[j].days[l].date,
            ) && rows_on(rows, ws[j].days[l].date).len() > 0,
        forall|j1: int, l1: int, j2: int, l2: int|
            0 <= j1 < ws.len() && 0 <= l1 < ws[j1].days.len() && 0 <= j2 < ws.len() && 0 <= l2
                < ws[j2].days.len() && (j1 != j2 || l1 != l2) ==> (#[trigger] ws[j1].days[l1]).date
                != (#[trigger] ws[j2].days[l2]).date,
        forall|i: int|
            #![trigger rows[i]]
            0 <= i < rows.len() ==> exists|j: int, l: int|
                0 <= j < ws.len() && 0 <= l < ws[j].days.len() && (#[trigger] ws[j].days[l]).date == rows[i].date,
        forall|j1: int, j2: int, i2: int|
            #![trigger ws[j1], ws[j2], rows[i2]]
            0 <= j1 < j2 < ws.len() && 0 <= i2 < rows.len() && key_of(rows[i2].date) == (
                ws[j2].week_number,
                ws[j2].iso_year->0,
            ) ==> exists|i1: int|
                0 <= i1 < i2 && key_of(#[trigger] rows[i1].date) == (ws[j1].week_number, ws[j1].iso_year->0),
{
    let keys = week_keys(rows);
    assert(keys.no_duplicates()) by {
        lemma_listed(rows, keys[0], rows[0].date);
    }
    assert forall|j: int| 0 <= j < ws.len() implies (#[trigger] ws[j]).week_number == keys[j].0 && ws[j].iso_year == Some(keys[j].1) by {
        assert(week_of_rows(ws[j], rows, keys[j], descending));
    }
    assert forall|j1: int, j2: int| 0 <= j1 < j2 < ws.len() implies (#[trigger] ws[j1].week_number, ws[j1].iso_year) != (
        #[trigger] ws[j2].week_number,
        ws[j2].iso_year,
    ) by {
        assert(ws[j1].week_number == keys[j1].0 && ws[j1].iso_year == Some(keys[j1].1));
        assert(ws[j2].week_number == keys[j2].0 && ws[j2].iso_year == Some(keys[j2].1));
        assert(keys[j1] != keys[j2]);
    }
    assert forall|j: int, l: int| 0 <= j < ws.len() && 0 <= l < ws[j].days.len() implies ws[j].iso_year == Some(
        key_of(#[trigger] ws[j].days[l].date).1,
    ) && ws[j].week_number == key_of(ws[j].days[l].date).0 && ws[j].days[l].items == items_on(
        rows,
        ws[j].days[l].date,
    ) && rows_on(rows, ws[j].days[l].date).len() > 0 by {
        let k = keys[j];
        assert(week_of_rows(ws[j], rows, k, descending));
        lemma_week_dates_in_week(rows, k);
        lemma_week_dates_rows(rows, k);
        let d = ws[j].days[l].date;
        assert(week_dates(rows, k).contains(d));
        let q = choose|q: int| 0 <= q < week_dates(rows, k).len() && week_dates(rows, k)[q] == d;
        assert(key_of(week_dates(rows, k)[q]) == k);
        assert(rows_on(rows, week_dates(rows, k)[q]).len() > 0);
    }
    assert forall|j1: int, l1: int, j2: int, l2: int|
        0 <= j1 < ws.len() && 0 <= l1 < ws[j1].days.len() && 0 <= j2 < ws.len() && 0 <= l2 < ws[j2].days.len()
            && (j1 != j2 || l1 != l2) implies (#[trigger] ws[j1].days[l1]).date != (#[trigger] ws[j2].days[l2]).date by {
        let d1 = ws[j1].days[l1].date;
        let d2 = ws[j2].days[l2].date;
        assert(ws[j1].week_number == key_of(d1).0 && ws[j1].iso_year == Some(key_of(d1).1));
        assert(ws[j2].week_number == key_of(d2).0 && ws[j2].iso_year == Some(key_of(d2).1));
        if j1 == j2 {
            assert(week_of_rows(ws[j1], rows, keys[j1], descending));
            if l1 < l2 {
                assert(date_before(ws[j1].days[l1].date, ws[j1].days[l2].date, descending));
            } else {
                assert(date_before(ws[j1].days[l2].date, ws[j1].days[l1].date, descending));
            }
        } else if j1 < j2 {
            assert(keys[j1] != keys[j2]);
        } else {
            assert(keys[j1] != keys[j2]);
        }
    }
    assert forall|i: int| #![trigger rows[i]] 0 <= i < rows.len() implies exists|j: int, l: int|
        0 <= j < ws.len() && 0 <= l < ws[j].days.len() && (#[trigger] ws[j].days[l]).date == rows[i].date by {
        let d = rows[i].date;
        let k = key_of(d);
        assert(keys.contains(k)) by {
            lemma_week_keys_rows(rows);
        }
        let j = choose|j: int| 0 <= j < keys.len() && keys[j] == k;
        assert(week_of_rows(ws[j], rows, keys[j], descending));
        lemma_week_dates_rows(rows, k);
        assert(week_dates(rows, k).contains(d));
        let q = choose|q: int| 0 <= q < week_dates(rows, k).len() && week_dates(rows, k)[q] == d;
        assert(day_listed(ws[j].days, week_dates(rows, k)[q]));
        let l = choose|l: int| 0 <= l < ws[j].days.len() && #[trigger] ws[j].days[l].date == d;
        assert(ws[j].days[l].date == rows[i].date);
    }
    assert forall|j1: int, j2: int, i2: int|
        #![trigger ws[j1], ws[j2], rows[i2]]
        0 <= j1 < j2 < ws.len() && 0 <= i2 < rows.len() && key_of(rows[i2].date) == (
            ws[j2].week_number,
            ws[j2].iso_year->0,
        ) implies exists|i1: int|
            0 <= i1 < i2 && key_of(#[trigger] rows[i1].date) == (ws[j1].week_number, ws[j1].iso_year->0) by {
        assert(ws[j2].week_number == keys[j2].0 && ws[j2].iso_year == Some(keys[j2].1));
        assert(ws[j1].week_number == keys[j1].0 && ws[j1].iso_year == Some(keys[j1].1));
        assert(key_of(rows[i2].date) == keys[j2]);
        lemma_first_occurrence_at(rows, j1, j2, i2);
    }
}


/// Rows listed newest first (as the store lists them) give weeks newest first:
/// each week is a strictly later ISO week (by ISO year, then week number) than
/// every week after it.
pub proof fn lemma_weeks_newest_first(ws: Seq<WeekView>, rows: Seq<EntryView>, descending: bool)
    requires
        worklog_of_rows(ws, rows, descending),
        rows.len() <= usize::MAX,
        forall|i: int| 0 <= i < rows.len() ==> valid_triple(#[trigger] rows[i].date@),
        forall|i1: int, i2: int| 0 <= i1 < i2 < rows.len() ==> !ymd_lt(#[trigger] rows[i1].date@, #[trigger] rows[i2].date@),
    ensures
        forall|j1: int, j2: int|
            0 <= j1 < j2 < ws.len() ==> week_key_le(
                (#[trigger] ws[j2].week_number, ws[j2].iso_year->0),
                (#[trigger] ws[j1].week_number, ws[j1].iso_year->0),
            ) && (ws[j2].week_number, ws[j2].iso_year) != (ws[j1].week_number, ws[j1].iso_year),
{
    let keys = week_keys(rows);
    assert(keys.no_duplicates()) by {
        lemma_listed(rows, keys[0], rows[0].date);
    }
    assert forall|j1: int, j2: int| 0 <= j1 < j2 < ws.len() implies week_key_le(
        (#[trigger] ws[j2].week_number, ws[j2].iso_year->0),
        (#[trigger] ws[j1].week_number, ws[j1].iso_year->0),
    ) && (ws[j2].week_number, ws[j2].iso_year) != (ws[j1].week_number, ws[j1].iso_year) by {
        assert(week_of_rows(ws[j1], rows, keys[j1], descending));
        assert(week_of_rows(ws[j2], rows, keys[j2], descending));
        lemma_week_keys_rows(rows);
        assert(exists|i: int| 0 <= i < rows.len() && key_of(#[trigger] rows[i].date) == keys[j2]);
        let i2 = choose|i: int| 0 <= i < rows.len() && key_of(#[trigger] rows[i].date) == keys[j2];
        lemma_first_occurrence_at(rows, j1, j2, i2);
        let i1 = choose|i1: int| 0 <= i1 < i2 && key_of(#[trigger] rows[i1].date) == keys[j1];
        assert(!ymd_lt(rows[i1].date@, rows[i2].date@));
        assert(valid_triple(rows[i1].date@));
        assert(valid_triple(rows[i2].date@));
        lemma_iso_week_monotone(rows[i2].date@, rows[i1].date@);
        assert(keys[j1] != keys[j2]);
    }
}


/// The positions of the rows of some dates, date by date.
pub open spec fn day_positions(rows: Seq<EntryView>, dates: Seq<Date>) -> Seq<usize>
    decreases dates.len(),
{
    if dates.len() == 0 {
        Seq::empty()
    } else {
        day_positions(rows, dates.drop_last()) + rows_on(rows, dates.last())
    }
}

/// The positions of the rows of some weeks, week by week and day by day.
pub open spec fn week_positions(rows: Seq<EntryView>, keys: Seq<WeekKey>) -> Seq<usize>
    decreases keys.len(),
{
    if keys.len() == 0 {
        Seq::empty()
    } else {
        week_positions(rows, keys.drop_last()) + day_positions(rows, week_dates(rows, keys.last()))
    }
}

/// The rows in the order in which grouping lists them (the order of the items
/// on the index page): week by week, then day by day, then row by row.
pub open spec fn grouped_positions(rows: Seq<EntryView>) -> Seq<usize> {
    week_positions(rows, week_keys(rows))
}

/// Two sequences without repeats and without common elements make one.
proof fn lemma_no_dup_concat(a: Seq<usize>, b: Seq<usize>)
    requires
        a.no_duplicates(),
        b.no_duplicates(),
        forall|i: int, j: int| 0 <= i < a.len() && 0 <= j < b.len() ==> #[trigger] a[i] != #[trigger] b[j],
    ensures
        (a + b).no_duplicates(),
{
    let c = a + b;
    assert forall|i: int, j: int| 0 <= i < c.len() && 0 <= j < c.len() && i != j implies c[i] != c[j] by {
        if i < a.len() && j < a.len() {
            assert(c[i] == a[i] && c[j] == a[j]);
        } else if i >= a.len() && j >= a.len() {
            assert(c[i] == b[i - a.len()] && c[j] == b[j - a.len()]);
        } else if i < a.len() {
            assert(c[i] == a[i] && c[j] == b[j - a.len()]);
        } else {
            assert(c[j] == a[j] && c[i] == b[i - a.len()]);
        }
    }
}

/// The positions of the rows of distinct dates: each a row of one of those
/// dates, none twice, and every row of those dates.
proof fn lemma_day_positions(rows: Seq<EntryView>, dates: Seq<Date>)
    requires
        rows.len() <= usize::MAX,
        dates.no_duplicates(),
    ensures
        day_positions(rows, dates).no_duplicates(),
        forall|t: int|
            0 <= t < day_positions(rows, dates).len() ==> (#[trigger] day_positions(rows, dates)[t]) < rows.len()
                && dates.contains(rows[day_positions(rows, dates)[t] as int].date),
        forall|i: int|
            0 <= i < rows.len() && dates.contains(#[trigger] rows[i].date) ==> day_positions(rows, dates).contains(i as usize),
    decreases dates.len(),
{
    if dates.len() > 0 {
        let p = dates.drop_last();
        let d = dates.last();
        assert(p.no_duplicates()) by {
            assert forall|i: int, j: int| 0 <= i < p.len() && 0 <= j < p.len() && i != j implies p[i] != p[j] by {
                assert(p[i] == dates[i] && p[j] == dates[j]);
            }
        }
        lemma_day_positions(rows, p);
        lemma_rows_on_exact(rows, d);
        let a = day_positions(rows, p);
        let b = rows_on(rows, d);
        assert(!p.contains(d)) by {
            if p.contains(d) {
                let q = choose|q: int| 0 <= q < p.len() && p[q] == d;
                assert(dates[q] == dates[dates.len() - 1]);
            }
        }
        assert(b.no_duplicates()) by {
            assert forall|i: int, j: int| 0 <= i < b.len() && 0 <= j < b.len() && i != j implies b[i] != b[j] by {
                if i < j {
                    assert(b[i] < b[j]);
                } else {
                    assert(b[j] < b[i]);
                }
            }
        }
        assert forall|i: int, j: int| 0 <= i < a.len() && 0 <= j < b.len() implies #[trigger] a[i] != #[trigger] b[j] by {
            assert(p.contains(rows[a[i] as int].date));
            assert(rows[b[j] as int].date == d);
        }
        lemma_no_dup_concat(a, b);
        let c = a + b;
        assert forall|t: int| 0 <= t < c.len() implies (#[trigger] c[t]) < rows.len() && dates.contains(rows[c[t] as int].date) by {
            if t < a.len() {
                assert(c[t] == a[t]);
                let q = choose|q: int| 0 <= q < p.len() && p[q] == rows[a[t] as int].date;
                assert(dates[q] == p[q]);
            } else {
                assert(c[t] == b[t - a.len()]);
                assert(dates[dates.len() - 1] == d);
            }
        }
        assert forall|i: int| 0 <= i < rows.len() && dates.contains(#[trigger] rows[i].date) implies c.contains(i as usize) by {
            let q = choose|q: int| 0 <= q < dates.len() && dates[q] == rows[i].date;
            if q < p.len() {
                assert(p[q] == dates[q]);
                assert(p.contains(rows[i].date));
                let w = choose|w: int| 0 <= w < a.len() && a[w] == i as usize;
                assert(c[w] == a[w]);
            } else {
                assert(rows[i].date == d);
                let w = choose|w: int| 0 <= w < b.len() && b[w] == i as usize;
                assert(c[a.len() + w] == b[w]);
            }
        }
    }
}

/// The positions of the rows of distinct weeks: each a row of one of those
/// weeks, none twice, and every row of those weeks.
proof fn lemma_week_positions(rows: Seq<EntryView>, keys: Seq<WeekKey>)
    requires
        rows.len() <= usize::MAX,
        keys.no_duplicates(),
    ensures
        week_positions(rows, keys).no_duplicates(),
        forall|t: int|
            0 <= t < week_positions(rows, keys).len() ==> (#[trigger] week_positions(rows, keys)[t]) < rows.len()
                && keys.contains(key_of(rows[week_positions(rows, keys)[t] as int].date)),
        forall|i: int|
            0 <= i < rows.len() && keys.contains(key_of(#[trigger] rows[i].date)) ==> week_positions(rows, keys).contains(
                i as usize,
            ),
    decreases keys.len(),
{
    if keys.len() > 0 {
        let p = keys.drop_last();
        let k = keys.last();
        assert(p.no_duplicates()) by {
            assert forall|i: int, j: int| 0 <= i < p.len() && 0 <= j < p.len() && i != j implies p[i] != p[j] by {
                assert(p[i] == keys[i] && p[j] == keys[j]);
            }
        }
        assert(!p.contains(k)) by {
            if p.contains(k) {
                let q = choose|q: int| 0 <= q < p.len() && p[q] == k;
                assert(keys[q] == keys[keys.len() - 1]);
            }
        }
        lemma_week_positions(rows, p);
        lemma_week_dates_in_week(rows, k);
        lemma_week_dates_rows(rows, k);
        let wd = week_dates(rows, k);
        lemma_day_positions(rows, wd);
        let a = week_positions(rows, p);
        let b = day_positions(rows, wd);
        assert forall|i: int, j: int| 0 <= i < a.len() && 0 <= j < b.len() implies #[trigger] a[i] != #[trigger] b[j] by {
            assert(p.contains(key_of(rows[a[i] as int].date)));
            assert(wd.contains(rows[b[j] as int].date));
            let q = choose|q: int| 0 <= q < wd.len() && wd[q] == rows[b[j] as int].date;
            assert(key_of(wd[q]) == k);
        }
        lemma_no_dup_concat(a, b);
        let c = a + b;
        assert forall|t: int| 0 <= t < c.len() implies (#[trigger] c[t]) < rows.len() && keys.contains(key_of(rows[c[t] as int].date)) by {
            if t < a.len() {
                assert(c[t] == a[t]);
                let q = choose|q: int| 0 <= q < p.len() && p[q] == key_of(rows[a[t] as int].date);
                assert(keys[q] == p[q]);
            } else {
                assert(c[t] == b[t - a.len()]);
                let q = choose|q: int| 0 <= q < wd.len() && wd[q] == rows[c[t] as int].date;
                assert(key_of(wd[q]) == k);
                assert(keys[keys.len() - 1] == k);
            }
        }
        assert forall|i: int| 0 <= i < rows.len() && keys.contains(key_of(#[trigger] rows[i].date)) implies c.contains(i as usize) by {
            let q = choose|q: int| 0 <= q < keys.len() && keys[q] == key_of(rows[i].date);
            if q < p.len() {
                assert(p[q] == keys[q]);
                assert(p.contains(key_of(rows[i].date)));
                let w = choose|w: int| 0 <= w < a.len() && a[w] == i as usize;
                assert(c[w] == a[w]);
            } else {
                assert(key_of(rows[i].date) == k);
                assert(wd.contains(rows[i].date));
                let w = choose|w: int| 0 <= w < b.len() && b[w] == i as usize;
                assert(c[a.len() + w] == b[w]);
            }
        }
    }
}

/// Grouping lists every row exactly once: the grouped positions are distinct
/// row positions, and every row's position is among them.
pub proof fn lemma_grouped_positions_exact(rows: Seq<EntryView>)
    requires
        rows.len() <= usize::MAX,
    ensures
        grouped_positions(rows).no_duplicates(),
        forall|t: int| 0 <= t < grouped_positions(rows).len() ==> (#[trigger] grouped_positions(rows)[t]) < rows.len(),
        forall|x: usize| (x as int) < rows.len() ==> #[trigger] grouped_positions(rows).contains(x),
        grouped_positions(rows).len() == rows.len(),
{
    let keys = week_keys(rows);
    assert(keys.no_duplicates()) by {
        lemma_listed(rows, keys[0], rows[0].date);
    }
    lemma_week_positions(rows, keys);
    lemma_week_keys_rows(rows);
    let g = grouped_positions(rows);
    assert forall|x: usize| (x as int) < rows.len() implies #[trigger] g.contains(x) by {
        let i = x as int;
        assert(keys.contains(key_of(rows[i].date)));
        assert(i as usize == x);
    }
    let full = Set::new(|x: usize| (x as int) < rows.len());
    assert(g.to_set() =~= full) by {
        assert forall|x: usize| g.to_set().contains(x) <==> full.contains(x) by {
            if full.contains(x) {
                assert(g.contains(x));
            }
        }
    }
    g.unique_seq_to_set();
    lemma_range_set_len(rows.len());
}

/// The positions below `n` number `n`.
proof fn lemma_range_set_len(n: nat)
    requires
        n <= usize::MAX,
    ensures
        Set::new(|x: usize| (x as int) < n).len() == n,
        Set::new(|x: usize| (x as int) < n).finite(),
    decreases n,
{
    let s = Set::new(|x: usize| (x as int) < n);
    if n == 0 {
        assert(s =~= Set::<usize>::empty());
    } else {
        lemma_range_set_len((n - 1) as nat);
        let p = Set::new(|x: usize| (x as int) < n - 1);
        assert(s =~= p.insert((n - 1) as usize));
    }
}

} // verus!
