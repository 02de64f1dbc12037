//! The stored rows and the decisions around storing them: reading a row's
//! date, finding which imported items are new, grouping rows into a worklog,
//! and the checks on what an update touched. The storage itself (SQLite) is
//! driven by the application around this library.
use vstd::prelude::*;

use crate::date::{group_date, iso_date_text, iso_format, parse_date, parsed_date, Date};
use crate::group::{worklog_from_rows, worklog_of_rows};
use crate::parser::{DayView, WeekView, WorkLog, texts_of};
use crate::text::chars_of;

verus! {

broadcast use vstd::string::group_string_axioms, group_date;

/// A single row from the `entries` table.
#[derive(Debug, Clone, PartialEq)]
pub struct EntryRow {
    pub id: i64,
    pub date: Date,
    pub item_text: String,
    pub created_at: String,
    pub sort_order: i32,
}

/// The contents of an `EntryRow`.
#[verifier::ext_equal]
pub struct EntryView {
    pub id: i64,
    pub date: Date,
    pub item_text: Seq<char>,
    pub created_at: Seq<char>,
    pub sort_order: i32,
}

impl View for EntryRow {
    type V = EntryView;

    open spec fn view(&self) -> EntryView {
        EntryView {
            id: self.id,
            date: self.date,
            item_text: self.item_text@,
            created_at: self.created_at@,
            sort_order: self.sort_order,
        }
    }
}

/// The contents of a list of rows.
pub open spec fn rows_view(v: Seq<EntryRow>) -> Seq<EntryView> {
    v.map_values(|r: EntryRow| r@)
}

/// A single row from the `contacts` table.
#[derive(Debug, Clone, PartialEq)]
pub struct ContactRow {
    pub id: i64,
    pub handle: String,
    pub full_name: String,
    pub email: String,
    pub created_at: String,
}

// ---------------------------------------------------------------------------
// Reading rows
// ---------------------------------------------------------------------------

/// Why a stored row could not be read.
#[derive(Debug)]
pub enum RowError {
    /// The stored date is not a `%Y-%m-%d` date; holds the stored text.
    BadDate(String),
}

impl RowError {
    /// The error message: `parsing date '<text>'`.
    pub fn message(&self) -> (s: String)
        ensures
            match self {
                RowError::BadDate(t) => s@ == "parsing date '"@ + t@ + "'"@,
            },
    {
        match self {
            RowError::BadDate(t) => {
                let mut s = String::from_str("parsing date '");
                s.append(t.as_str());
                s.append("'");
                s
            },
        }
    }
}

/// Builds an `EntryRow` from the columns of a row of the `entries` table; the
/// date is stored as `%Y-%m-%d` text.
pub fn decode_entry_row(
    id: i64,
    date_text: &str,
    item_text: String,
    created_at: String,
    sort_order: i32,
) -> (r: Result<EntryRow, RowError>)
    ensures
        match parsed_date(date_text@, iso_format()) {
            Some(t) => r matches Ok(row) && row@ == (EntryView {
                id,
                date: row.date,
                item_text: item_text@,
                created_at: created_at@,
                sort_order,
            }) && row.date@ == t,
            None => r matches Err(RowError::BadDate(s)) && s@ == date_text@,
        },
{
    let chars = chars_of(date_text);
    let fmt = "%Y-%m-%d";
    proof {
        reveal_strlit("%Y-%m-%d");
        assert(fmt@ =~= iso_format());
    }
    match parse_date(&chars, fmt) {
        Some(date) => Ok(EntryRow { id, date, item_text, created_at, sort_order }),
        None => Err(RowError::BadDate(String::from_str(date_text))),
    }
}

/// The text in which a date is stored, `%Y-%m-%d`; reading it back with
/// `decode_entry_row` gives the same date.
pub fn date_to_stored_text(date: &Date) -> (s: String)
    ensures
        s@ == iso_date_text(date@),
        parsed_date(s@, iso_format()) == Some(date@),
{
    date.iso_text()
}

// ---------------------------------------------------------------------------
// Checks on updates and queries
// ---------------------------------------------------------------------------

/// The kind of record an update or delete addressed.
#[derive(Debug, Clone, Copy, PartialEq, Eq, Structural)]
pub enum RecordKind {
    Entry,
    Contact,
}

/// An update or delete that did not touch exactly one row.
#[derive(Debug, Clone, Copy, PartialEq, Eq, Structural)]
pub struct NotFoundError {
    pub kind: RecordKind,
    pub id: i64,
}

impl NotFoundError {
    /// The error message: `entry with id <id> not found` (or `contact ...`).
    pub fn message(&self) -> (s: String)
        ensures
            s@ == (match self.kind {
                RecordKind::Entry => "entry"@,
                RecordKind::Contact => "contact"@,
            }) + " with id "@ + crate::text::int_text(self.id as int) + " not found"@,
    {
        let mut s = match self.kind {
            RecordKind::Entry => String::from_str("entry"),
            RecordKind::Contact => String::from_str("contact"),
        };
        s.append(" with id ");
        let digits = crate::text::int_to_chars(self.id);
        crate::text::push_chars(&mut s, &digits);
        s.append(" not found");
        s
    }
}

/// An update or delete of record `id` succeeded only if it changed exactly one
/// row; otherwise the record was not found.
pub fn expect_single_row(rows_changed: usize, kind: RecordKind, id: i64) -> (r: Result<(), NotFoundError>)
    ensures
        r is Ok <==> rows_changed == 1,
        r matches Err(e) ==> e == (NotFoundError { kind, id }),
{
    if rows_changed == 1 {
        Ok(())
    } else {
        Err(NotFoundError { kind, id })
    }
}

/// The highest sort order of a day, or -1 when the day has no entries (`max`
/// is what `SELECT MAX(sort_order)` gave).
pub fn max_sort_order_or_default(max: Option<i32>) -> (r: i32)
    ensures
        r == match max {
            Some(m) => m as int,
            None => -1int,
        },
{
    match max {
        Some(m) => m,
        None => -1,
    }
}

/// The sort order of an item appended after the highest one of its day.
pub fn next_sort_order(max: i32) -> (r: i32)
    requires
        max < i32::MAX,
    ensures
        r == max + 1,
{
    max + 1
}

// ---------------------------------------------------------------------------
// Export
// ---------------------------------------------------------------------------

/// Builds a `WorkLog` from entry rows (as the store lists them: newest date
/// first, then by sort order), grouped by ISO week.
///
/// Weeks come in the order of their first row, each with its ISO year; days
/// within each week are chronological; items within each day follow the rows.
pub fn export_to_worklog(entries: &Vec<EntryRow>) -> (r: WorkLog)
    ensures
        worklog_of_rows(r@, rows_view(entries@), false),
{
    worklog_from_rows(entries, false)
}

// ---------------------------------------------------------------------------
// Import
// ---------------------------------------------------------------------------

/// An item already stored: its date as stored text, and its text.
#[derive(Debug, Clone, PartialEq)]
pub struct StoredItem {
    pub date_text: String,
    pub item_text: String,
}

/// An entry to insert: its date, its text and its position within its day.
#[derive(Debug, Clone, PartialEq)]
pub struct NewEntry {
    pub date: Date,
    pub item_text: String,
    pub sort_order: i32,
}

/// The contents of a `NewEntry`.
#[verifier::ext_equal]
pub struct NewEntryView {
    pub date: Date,
    pub item_text: Seq<char>,
    pub sort_order: i32,
}

impl View for NewEntry {
    type V = NewEntryView;

    open spec fn view(&self) -> NewEntryView {
        NewEntryView { date: self.date, item_text: self.item_text@, sort_order: self.sort_order }
    }
}

/// The contents of a list of new entries.
pub open spec fn new_entries_view(v: Seq<NewEntry>) -> Seq<NewEntryView> {
    v.map_values(|e: NewEntry| e@)
}

/// The (stored date text, item text) pairs of stored items.
pub open spec fn stored_pairs(v: Seq<StoredItem>) -> Seq<(Seq<char>, Seq<char>)> {
    v.map_values(|e: StoredItem| (e.date_text@, e.item_text@))
}

/// An item of a worklog with its date and its position within its day.
pub struct FlatItem {
    pub date: Date,
    pub text: Seq<char>,
    pub position: int,
}

/// The items of a day, in order.
pub open spec fn day_items_flat(d: DayView) -> Seq<FlatItem> {
    Seq::new(d.items.len(), |i: int| FlatItem { date: d.date, text: d.items[i], position: i })
}

/// The items of some days, in order.
pub open spec fn days_flat(days: Seq<DayView>) -> Seq<FlatItem>
    decreases days.len(),
{
    if days.len() == 0 {
        Seq::empty()
    } else {
        days_flat(days.drop_last()) + day_items_flat(days.last())
    }
}

/// The items of a worklog, week by week and day by day.
pub open spec fn worklog_items(ws: Seq<WeekView>) -> Seq<FlatItem>
    decreases ws.len(),
{
    if ws.len() == 0 {
        Seq::empty()
    } else {
        worklog_items(ws.drop_last()) + days_flat(ws.last().days)
    }
}

/// How an item is found among the stored ones: stored date text and text.
pub open spec fn stored_key(d: Date, text: Seq<char>) -> (Seq<char>, Seq<char>) {
    (iso_date_text(d@), text)
}

/// The stored keys of new entries.
pub open spec fn planned_keys(p: Seq<NewEntryView>) -> Seq<(Seq<char>, Seq<char>)> {
    p.map_values(|e: NewEntryView| stored_key(e.date, e.item_text))
}

/// The entries that importing `items` inserts, in order: each item whose date
/// and text are neither stored already nor inserted earlier in the import, with
/// its position within its day as sort order.
pub open spec fn import_plan(
    items: Seq<FlatItem>,
    stored: Seq<(Seq<char>, Seq<char>)>,
) -> Seq<NewEntryView>
    decreases items.len(),
{
    if items.len() == 0 {
        Seq::empty()
    } else {
        let p = import_plan(items.drop_last(), stored);
        let f = items.last();
        let key = stored_key(f.date, f.text);
        if stored.contains(key) || planned_keys(p).contains(key) {
            p
        } else {
            p.push(NewEntryView { date: f.date, item_text: f.text, sort_order: f.position as i32 })
        }
    }
}

/// Whether `(date_text, text)` is among `dates`/`texts` taken pairwise.
fn pair_listed(dates: &Vec<String>, texts: &Vec<String>, date_text: &String, text: &String) -> (r: bool)
    requires
        dates@.len() == texts@.len(),
    ensures
        r == Seq::new(dates@.len(), |i: int| (dates@[i]@, texts@[i]@)).contains((date_text@, text@)),
{
    let ghost pairs = Seq::new(dates@.len(), |i: int| (dates@[i]@, texts@[i]@));
    let mut i: usize = 0;
    while i < dates.len()
        invariant
            i <= dates@.len(),
            dates@.len() == texts@.len(),
            pairs == Seq::new(dates@.len(), |i: int| (dates@[i]@, texts@[i]@)),
            forall|q: int| 0 <= q < i ==> pairs[q] != (date_text@, text@),
        decreases dates@.len() - i,
    {
        if dates[i] == *date_text && texts[i] == *text {
            assert(pairs[i as int] == (date_text@, text@));
            return true;
        }
        i = i + 1;
    }
    false
}

/// Chooses the entries to insert when importing a parsed worklog, given the
/// items already stored: an item is skipped when an item with the same date and
/// text is stored or was chosen earlier, so that importing again inserts
/// nothing. Each chosen entry keeps its position within its day as sort order;
/// the number of inserted entries is the length of the result.
pub fn import_from_worklog(worklog: &WorkLog, existing: &Vec<StoredItem>) -> (plan: Vec<NewEntry>)
    ensures
        new_entries_view(plan@) == import_plan(worklog_items(worklog@), stored_pairs(existing@)),
{
    let ghost ws = worklog@;
    let ghost stored = stored_pairs(existing@);
    let mut stored_dates: Vec<String> = Vec::new();
    let mut stored_texts: Vec<String> = Vec::new();
    let mut e: usize = 0;
    while e < existing.len()
        invariant
            e <= existing@.len(),
            stored_dates@.len() == e,
            stored_texts@.len() == e,
            forall|q: int| 0 <= q < e ==> (#[trigger] stored_dates@[q])@ == existing@[q].date_text@
                && stored_texts@[q]@ == existing@[q].item_text@,
        decreases existing@.len() - e,
    {
        let ghost old_dates = stored_dates@;
        let ghost old_texts = stored_texts@;
        stored_dates.push(existing[e].date_text.clone());
        stored_texts.push(existing[e].item_text.clone());
        assert(stored_dates@ == old_dates.push(stored_dates@[e as int]));
        assert(stored_texts@ == old_texts.push(stored_texts@[e as int]));
        e = e + 1;
    }
    assert(Seq::new(stored_dates@.len(), |i: int| (stored_dates@[i]@, stored_texts@[i]@)) =~= stored);
    let mut plan: Vec<NewEntry> = Vec::new();
    let mut plan_dates: Vec<String> = Vec::new();
    let mut plan_texts: Vec<String> = Vec::new();
    let mut wi: usize = 0;
    assert(ws.take(0) =~= Seq::<WeekView>::empty());
    while wi < worklog.weeks.len()
        invariant
            ws == worklog@,
            stored == stored_pairs(existing@),
            Seq::new(stored_dates@.len(), |i: int| (stored_dates@[i]@, stored_texts@[i]@)) == stored,
            stored_dates@.len() == stored_texts@.len(),
            wi <= ws.len(),
            plan_dates@.len() == plan@.len() && plan_texts@.len() == plan@.len(),
            Seq::new(plan_dates@.len(), |i: int| (plan_dates@[i]@, plan_texts@[i]@)) == planned_keys(new_entries_view(plan@)),
            new_entries_view(plan@) == import_plan(worklog_items(ws.take(wi as int)), stored),
        decreases ws.len() - wi,
    {
        let week = &worklog.weeks[wi];
        let ghost wv = ws[wi as int];
        let ghost before = worklog_items(ws.take(wi as int));
        let mut di: usize = 0;
        assert(wv.days.take(0) =~= Seq::<DayView>::empty());
        assert(before + days_flat(wv.days.take(0)) =~= before);
        while di < week.days.len()
            invariant
                ws == worklog@,
                wi < ws.len(),
                wv == ws[wi as int],
                wv == week@,
                stored == stored_pairs(existing@),
                Seq::new(stored_dates@.len(), |i: int| (stored_dates@[i]@, stored_texts@[i]@)) == stored,
                stored_dates@.len() == stored_texts@.len(),
                di <= wv.days.len(),
                plan_dates@.len() == plan@.len() && plan_texts@.len() == plan@.len(),
                Seq::new(plan_dates@.len(), |i: int| (plan_dates@[i]@, plan_texts@[i]@)) == planned_keys(new_entries_view(plan@)),
                new_entries_view(plan@) == import_plan(before + days_flat(wv.days.take(di as int)), stored),
            decreases wv.days.len() - di,
        {
            let day = &week.days[di];
            let ghost dv = wv.days[di as int];
            assert(dv == day@);
            let ghost mid = before + days_flat(wv.days.take(di as int));
            let date_text = day.date.iso_text();
            let mut ii: usize = 0;
            assert(mid + day_items_flat(dv).take(0) =~= mid);
            while ii < day.items.len()
                invariant
                    dv == day@,
                    date_text@ == iso_date_text(dv.date@),
                    stored == stored_pairs(existing@),
                    Seq::new(stored_dates@.len(), |i: int| (stored_dates@[i]@, stored_texts@[i]@)) == stored,
                    stored_dates@.len() == stored_texts@.len(),
                    ii <= dv.items.len(),
                    plan_dates@.len() == plan@.len() && plan_texts@.len() == plan@.len(),
                    Seq::new(plan_dates@.len(), |i: int| (plan_dates@[i]@, plan_texts@[i]@)) == planned_keys(new_entries_view(plan@)),
                    new_entries_view(plan@) == import_plan(mid + day_items_flat(dv).take(ii as int), stored),
                decreases dv.items.len() - ii,
            {
                let text = &day.items[ii];
                let ghost cur = mid + day_items_flat(dv).take(ii as int);
                let ghost nxt = mid + day_items_flat(dv).take(ii + 1);
                assert(nxt.drop_last() =~= cur);
                assert(nxt.last() == FlatItem { date: dv.date, text: dv.items[ii as int], position: ii as int });
                let in_store = pair_listed(&stored_dates, &stored_texts, &date_text, text);
                let in_plan = pair_listed(&plan_dates, &plan_texts, &date_text, text);
                if !in_store && !in_plan {
                    let ghost old_plan = new_entries_view(plan@);
                    let entry = NewEntry { date: day.date, item_text: text.clone(), sort_order: #[verifier::truncate] (ii as i32) };
                    plan.push(entry);
                    plan_dates.push(date_text.clone());
                    plan_texts.push(text.clone());
                    assert(new_entries_view(plan@) =~= old_plan.push(entry@));
                    assert(planned_keys(new_entries_view(plan@)) =~= planned_keys(old_plan).push(stored_key(dv.date, dv.items[ii as int])));
                    assert(Seq::new(plan_dates@.len(), |i: int| (plan_dates@[i]@, plan_texts@[i]@)) =~= planned_keys(new_entries_view(plan@)));
                }
                ii = ii + 1;
            }
            assert(day_items_flat(dv).take(dv.items.len() as int) =~= day_items_flat(dv));
            assert(wv.days.take(di + 1).drop_last() =~= wv.days.take(di as int));
            assert(before + days_flat(wv.days.take(di + 1)) =~= mid + day_items_flat(dv));
            di = di + 1;
        }
        assert(wv.days.take(wv.days.len() as int) =~= wv.days);
        assert(ws.take(wi + 1).drop_last() =~= ws.take(wi as int));
        assert(worklog_items(ws.take(wi + 1)) == before + days_flat(wv.days));
        wi = wi + 1;
    }
    assert(ws.take(ws.len() as int) =~= ws);
    plan
}

/// After an import, every imported item's date and text is stored or was chosen.
proof fn lemma_import_covers(items: Seq<FlatItem>, stored: Seq<(Seq<char>, Seq<char>)>)
    ensures
        forall|i: int|
            0 <= i < items.len() ==> stored.contains(stored_key(#[trigger] items[i].date, items[i].text))
                || planned_keys(import_plan(items, stored)).contains(stored_key(items[i].date, items[i].text)),
    decreases items.len(),
{
    if items.len() > 0 {
        let prev = items.drop_last();
        lemma_import_covers(prev, stored);
        let p = import_plan(prev, stored);
        let q = import_plan(items, stored);
        assert forall|i: int|
            0 <= i < items.len() implies stored.contains(stored_key(#[trigger] items[i].date, items[i].text))
                || planned_keys(q).contains(stored_key(items[i].date, items[i].text)) by {
            let key = stored_key(items[i].date, items[i].text);
            if i < prev.len() {
                assert(items[i] == prev[i]);
                if !stored.contains(key) {
                    assert(planned_keys(p).contains(key));
                    let w = choose|w: int| 0 <= w < planned_keys(p).len() && #[trigger] planned_keys(p)[w] == key;
                    assert(planned_keys(q)[w] == key);
                }
            } else {
                let f = items.last();
                assert(items[i] == f);
                if !stored.contains(key) && !planned_keys(p).contains(key) {
                    assert(planned_keys(q)[planned_keys(q).len() - 1] == key);
                } else if !stored.contains(key) {
                    let w = choose|w: int| 0 <= w < planned_keys(p).len() && #[trigger] planned_keys(p)[w] == key;
                    assert(planned_keys(q)[w] == key);
                }
            }
        }
    }
}

/// Importing items whose dates and texts are all stored chooses nothing.
proof fn lemma_import_nothing_new(items: Seq<FlatItem>, stored: Seq<(Seq<char>, Seq<char>)>)
    requires
        forall|i: int| 0 <= i < items.len() ==> stored.contains(stored_key(#[trigger] items[i].date, items[i].text)),
    ensures
        import_plan(items, stored) == Seq::<NewEntryView>::empty(),
    decreases items.len(),
{
    if items.len() > 0 {
        let prev = items.drop_last();
        assert forall|i: int| 0 <= i < prev.len() implies stored.contains(stored_key(#[trigger] prev[i].date, prev[i].text)) by {
            assert(prev[i] == items[i]);
        }
        lemma_import_nothing_new(prev, stored);
        assert(items.last() == items[items.len() - 1]);
    }
}

/// Importing the same worklog again, once the chosen entries are stored,
/// inserts nothing: import is idempotent.
pub proof fn lemma_import_idempotent(ws: Seq<WeekView>, stored: Seq<(Seq<char>, Seq<char>)>)
    ensures
        import_plan(
            worklog_items(ws),
            stored + planned_keys(import_plan(worklog_items(ws), stored)),
        ) == Seq::<NewEntryView>::empty(),
{
    let items = worklog_items(ws);
    let planned = planned_keys(import_plan(items, stored));
    lemma_import_covers(items, stored);
    assert forall|i: int| 0 <= i < items.len() implies (stored + planned).contains(
        stored_key(#[trigger] items[i].date, items[i].text),
    ) by {
        let key = stored_key(items[i].date, items[i].text);
        if stored.contains(key) {
            let w = choose|w: int| 0 <= w < stored.len() && #[trigger] stored[w] == key;
            assert((stored + planned)[w] == key);
        } else {
            let w = choose|w: int| 0 <= w < planned.len() && #[trigger] planned[w] == key;
            assert((stored + planned)[stored.len() + w] == key);
        }
    }
    lemma_import_nothing_new(items, stored + planned);
}


/// The entry that importing item `f` inserts.
pub open spec fn entry_of_item(f: FlatItem) -> NewEntryView {
    NewEntryView { date: f.date, item_text: f.text, sort_order: f.position as i32 }
}

/// What an import chooses: no two chosen entries share a date and text, none
/// was stored already, and each is an item of the worklog at its position.
proof fn lemma_import_plan_props(items: Seq<FlatItem>, stored: Seq<(Seq<char>, Seq<char>)>)
    ensures
        planned_keys(import_plan(items, stored)).no_duplicates(),
        forall|t: int|
            0 <= t < import_plan(items, stored).len() ==> !stored.contains(
                #[trigger] planned_keys(import_plan(items, stored))[t],
            ),
        forall|t: int|
            0 <= t < import_plan(items, stored).len() ==> exists|i: int|
                0 <= i < items.len() && #[trigger] import_plan(items, stored)[t] == entry_of_item(items[i]),
    decreases items.len(),
{
    if items.len() > 0 {
        let prev = items.drop_last();
        lemma_import_plan_props(prev, stored);
        let p = import_plan(prev, stored);
        let q = import_plan(items, stored);
        let f = items.last();
        let key = stored_key(f.date, f.text);
        if !(stored.contains(key) || planned_keys(p).contains(key)) {
            let e = NewEntryView { date: f.date, item_text: f.text, sort_order: f.position as i32 };
            assert(q == p.push(e));
            assert(planned_keys(q) =~= planned_keys(p).push(key));
            assert forall|t: int| 0 <= t < q.len() implies exists|i: int|
                0 <= i < items.len() && #[trigger] q[t] == entry_of_item(items[i]) by {
                if t < p.len() {
                    assert(q[t] == p[t]);
                    let i = choose|i: int| 0 <= i < prev.len() && #[trigger] p[t] == entry_of_item(prev[i]);
                    assert(items[i] == prev[i]);
                } else {
                    assert(items[items.len() - 1] == f);
                }
            }
            assert forall|t: int| 0 <= t < q.len() implies !stored.contains(#[trigger] planned_keys(q)[t]) by {
                if t < p.len() {
                    assert(planned_keys(q)[t] == planned_keys(p)[t]);
                }
            }
        } else {
            assert forall|t: int| 0 <= t < q.len() implies exists|i: int|
                0 <= i < items.len() && #[trigger] q[t] == entry_of_item(items[i]) by {
                let i = choose|i: int| 0 <= i < prev.len() && #[trigger] p[t] == entry_of_item(prev[i]);
                assert(items[i] == prev[i]);
            }
        }
    }
}

/// Importing adds exactly the new items. Once the chosen entries are stored,
/// the stored items are the old ones followed by the chosen ones, and every
/// item of the worklog is stored; no chosen entry was stored already or is
/// chosen twice; each chosen entry is an item of the worklog with its position
/// within its day as sort order; the count of inserted entries is the number
/// chosen.
pub proof fn lemma_import_adds_new_items(ws: Seq<WeekView>, stored: Seq<(Seq<char>, Seq<char>)>)
    ensures
        planned_keys(import_plan(worklog_items(ws), stored)).no_duplicates(),
        forall|t: int|
            0 <= t < import_plan(worklog_items(ws), stored).len() ==> !stored.contains(
                #[trigger] planned_keys(import_plan(worklog_items(ws), stored))[t],
            ),
        forall|t: int|
            0 <= t < import_plan(worklog_items(ws), stored).len() ==> exists|i: int|
                0 <= i < worklog_items(ws).len() && #[trigger] import_plan(worklog_items(ws), stored)[t]
                    == entry_of_item(worklog_items(ws)[i]),
        forall|i: int|
            0 <= i < worklog_items(ws).len() ==> (stored + planned_keys(import_plan(worklog_items(ws), stored))).contains(
                stored_key(#[trigger] worklog_items(ws)[i].date, worklog_items(ws)[i].text),
            ),
{
    let items = worklog_items(ws);
    let planned = planned_keys(import_plan(items, stored));
    lemma_import_plan_props(items, stored);
    lemma_import_covers(items, stored);
    assert forall|i: int| 0 <= i < items.len() implies (stored + planned).contains(
        stored_key(#[trigger] items[i].date, items[i].text),
    ) by {
        let key = stored_key(items[i].date, items[i].text);
        if stored.contains(key) {
            let w = choose|w: int| 0 <= w < stored.len() && #[trigger] stored[w] == key;
            assert((stored + planned)[w] == key);
        } else {
            let w = choose|w: int| 0 <= w < planned.len() && #[trigger] planned[w] == key;
            assert((stored + planned)[stored.len() + w] == key);
        }
    }
}

} // verus!
