use worklog::date::Date;
use worklog::db::{
    date_to_stored_text, decode_entry_row, expect_single_row, export_to_worklog,
    import_from_worklog, max_sort_order_or_default, next_sort_order, EntryRow, NewEntry,
    NotFoundError, RecordKind, RowError, StoredItem,
};
use worklog::parser::{DayEntry, WeekEntry, WorkLog};

fn date(y: i32, m: u32, d: u32) -> Date {
    Date::from_ymd_opt(y, m, d).unwrap()
}

/// What the `entries` table holds after `plan` is inserted: the items that
/// import compares against.
fn stored_items(plan: &[NewEntry]) -> Vec<StoredItem> {
    plan.iter()
        .map(|e| StoredItem {
            date_text: date_to_stored_text(&e.date),
            item_text: e.item_text.clone(),
        })
        .collect()
}

/// The rows of the `entries` table after `plan` is inserted, as the store lists
/// them: newest date first, then by sort order.
fn listed_rows(plan: &[NewEntry]) -> Vec<EntryRow> {
    let mut rows: Vec<EntryRow> = plan
        .iter()
        .enumerate()
        .map(|(i, e)| EntryRow {
            id: i as i64 + 1,
            date: e.date,
            item_text: e.item_text.clone(),
            created_at: String::new(),
            sort_order: e.sort_order,
        })
        .collect();
    rows.sort_by(|a, b| b.date.ymd().cmp(&a.date.ymd()).then(a.sort_order.cmp(&b.sort_order)));
    rows
}

fn row(id: i64, d: Date, text: &str, sort_order: i32) -> EntryRow {
    EntryRow {
        id,
        date: d,
        item_text: text.into(),
        created_at: String::new(),
        sort_order,
    }
}

// --- sort order ---

#[test]
fn test_get_max_sort_order() {
    // Empty day returns -1.
    let max = max_sort_order_or_default(None);
    assert_eq!(max, -1, "no entries should return -1");

    let max = max_sort_order_or_default(Some(2));
    assert_eq!(max, 2, "should return highest sort_order present");
}

#[test]
fn next_sort_order_appends_after_the_highest() {
    assert_eq!(next_sort_order(max_sort_order_or_default(None)), 0);
    assert_eq!(next_sort_order(2), 3);
}

// --- import ---

#[test]
fn test_import_from_worklog() {
    let worklog = WorkLog {
        weeks: vec![WeekEntry {
            week_number: 11,
            iso_year: None,
            days: vec![DayEntry {
                date: date(2026, 3, 9),
                items: vec!["Item one".into(), "Item two".into()],
            }],
        }],
    };

    let plan = import_from_worklog(&worklog, &vec![]);
    assert_eq!(plan.len(), 2, "should import two entries");

    let rows = listed_rows(&plan);
    assert_eq!(rows.len(), 2);
}

#[test]
fn test_import_skips_duplicates() {
    let worklog = WorkLog {
        weeks: vec![WeekEntry {
            week_number: 11,
            iso_year: None,
            days: vec![DayEntry {
                date: date(2026, 3, 9),
                items: vec!["Only item".into()],
            }],
        }],
    };

    let first = import_from_worklog(&worklog, &vec![]);
    assert_eq!(first.len(), 1, "first import should insert 1 entry");

    let stored = stored_items(&first);
    let second = import_from_worklog(&worklog, &stored);
    assert_eq!(second.len(), 0, "re-import of same data should insert 0 entries");

    let rows = listed_rows(&first);
    assert_eq!(rows.len(), 1, "database should still have exactly one row");
}

#[test]
fn import_keeps_positions_and_skips_repeats_within_the_worklog() {
    let worklog = WorkLog {
        weeks: vec![WeekEntry {
            week_number: 11,
            iso_year: None,
            days: vec![
                DayEntry {
                    date: date(2026, 3, 9),
                    items: vec!["A".into(), "B".into(), "A".into(), "C".into()],
                },
                DayEntry {
                    date: date(2026, 3, 10),
                    items: vec!["A".into()],
                },
            ],
        }],
    };
    let stored = vec![StoredItem {
        date_text: "2026-03-09".into(),
        item_text: "B".into(),
    }];
    let plan = import_from_worklog(&worklog, &stored);
    assert_eq!(
        plan,
        vec![
            NewEntry { date: date(2026, 3, 9), item_text: "A".into(), sort_order: 0 },
            NewEntry { date: date(2026, 3, 9), item_text: "C".into(), sort_order: 3 },
            NewEntry { date: date(2026, 3, 10), item_text: "A".into(), sort_order: 0 },
        ]
    );
}

#[test]
fn import_compares_with_the_stored_date_text() {
    let worklog = WorkLog {
        weeks: vec![WeekEntry {
            week_number: 11,
            iso_year: None,
            days: vec![DayEntry {
                date: date(2026, 3, 9),
                items: vec!["Task".into()],
            }],
        }],
    };
    // A date stored in another spelling is not the same stored date.
    let stored = vec![StoredItem {
        date_text: "2026-3-9".into(),
        item_text: "Task".into(),
    }];
    assert_eq!(import_from_worklog(&worklog, &stored).len(), 1);
}

// --- export ---

#[test]
fn test_export_to_worklog_groups_by_week() {
    // Rows as the store lists them: newest date first, then by sort order.
    let rows = vec![
        row(2, date(2026, 3, 10), "Tue item", 0),
        row(1, date(2026, 3, 9), "Mon item", 0),
        row(3, date(2026, 3, 2), "Older item", 0),
    ];

    let worklog = export_to_worklog(&rows);
    assert_eq!(worklog.weeks.len(), 2, "should have two week groups");

    // Newest week first.
    assert_eq!(worklog.weeks[0].week_number, 11);
    assert_eq!(worklog.weeks[0].days.len(), 2);
    assert_eq!(worklog.weeks[1].week_number, 10);
    assert_eq!(worklog.weeks[1].days.len(), 1);
}

#[test]
fn export_orders_days_chronologically() {
    let rows = vec![
        row(2, date(2026, 3, 10), "Tue item", 0),
        row(1, date(2026, 3, 9), "Mon item 1", 0),
        row(4, date(2026, 3, 9), "Mon item 2", 1),
    ];
    let worklog = export_to_worklog(&rows);
    assert_eq!(worklog.weeks.len(), 1);
    assert_eq!(worklog.weeks[0].iso_year, Some(2026));
    assert_eq!(worklog.weeks[0].days[0].date, date(2026, 3, 9));
    assert_eq!(worklog.weeks[0].days[0].items, vec!["Mon item 1", "Mon item 2"]);
    assert_eq!(worklog.weeks[0].days[1].date, date(2026, 3, 10));
}

#[test]
fn test_round_trip_import_export() {
    let original = WorkLog {
        weeks: vec![
            WeekEntry {
                week_number: 10,
                iso_year: None,
                days: vec![DayEntry {
                    date: date(2026, 3, 2),
                    items: vec!["Old task".into()],
                }],
            },
            WeekEntry {
                week_number: 11,
                iso_year: None,
                days: vec![DayEntry {
                    date: date(2026, 3, 9),
                    items: vec!["New task A".into(), "New task B".into()],
                }],
            },
        ],
    };

    let plan = import_from_worklog(&original, &vec![]);
    let exported = export_to_worklog(&listed_rows(&plan));

    // Export returns newest week first; original is ordered oldest-first,
    // so compare by finding the matching weeks rather than assuming order.
    assert_eq!(
        exported.weeks.len(),
        2,
        "round-trip should preserve week count"
    );

    let week11 = exported
        .weeks
        .iter()
        .find(|w| w.week_number == 11)
        .expect("week 11 should be present");
    assert_eq!(week11.days[0].items, vec!["New task A", "New task B"]);

    let week10 = exported
        .weeks
        .iter()
        .find(|w| w.week_number == 10)
        .expect("week 10 should be present");
    assert_eq!(week10.days[0].items, vec!["Old task"]);
}

// --- reading rows ---

#[test]
fn decode_entry_row_reads_the_stored_date() {
    let r = decode_entry_row(5, "2026-03-09", "Task".into(), "2026-03-09 10:00:00".into(), 2);
    match r {
        Ok(row) => {
            assert_eq!(row.id, 5);
            assert_eq!(row.date, date(2026, 3, 9));
            assert_eq!(row.item_text, "Task");
            assert_eq!(row.created_at, "2026-03-09 10:00:00");
            assert_eq!(row.sort_order, 2);
        }
        Err(e) => panic!("unexpected error: {}", e.message()),
    }
}

#[test]
fn decode_entry_row_rejects_a_bad_date() {
    match decode_entry_row(5, "Mar 9, 2026", "Task".into(), String::new(), 0) {
        Err(RowError::BadDate(t)) => assert_eq!(t, "Mar 9, 2026"),
        Ok(_) => panic!("a non-ISO date must not be read"),
    }
    let e = decode_entry_row(1, "2026-02-30", String::new(), String::new(), 0).unwrap_err();
    assert_eq!(e.message(), "parsing date '2026-02-30'");
}

#[test]
fn stored_date_text_reads_back_as_the_same_date() {
    for d in [date(2026, 3, 9), date(12, 7, 4), date(2024, 2, 29)] {
        let text = date_to_stored_text(&d);
        let back = decode_entry_row(1, &text, String::new(), String::new(), 0).unwrap();
        assert_eq!(back.date, d);
    }
    assert_eq!(date_to_stored_text(&date(2026, 3, 9)), "2026-03-09");
}

// --- updates that touch no row ---

#[test]
fn expect_single_row_accepts_exactly_one_row() {
    assert_eq!(expect_single_row(1, RecordKind::Entry, 7), Ok(()));
    assert_eq!(
        expect_single_row(0, RecordKind::Entry, 7),
        Err(NotFoundError { kind: RecordKind::Entry, id: 7 })
    );
    assert_eq!(
        expect_single_row(2, RecordKind::Contact, 3),
        Err(NotFoundError { kind: RecordKind::Contact, id: 3 })
    );
}

#[test]
fn not_found_messages_name_the_record() {
    let e = NotFoundError { kind: RecordKind::Entry, id: 7 };
    assert_eq!(e.message(), "entry with id 7 not found");
    let c = NotFoundError { kind: RecordKind::Contact, id: -12 };
    assert_eq!(c.message(), "contact with id -12 not found");
}
