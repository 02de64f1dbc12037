use worklog::date::Date;
use worklog::parser::{clean_item, parse_week_header, parse_worklog, DayEntry, ParseError, WeekEntry};

fn date(y: i32, m: u32, d: u32) -> Date {
    Date::from_ymd_opt(y, m, d).unwrap()
}

// --- Error / edge cases ---

#[test]
fn test_parse_empty_input() {
    let result = parse_worklog("").unwrap();
    assert_eq!(result.weeks, vec![], "empty input should yield no weeks");
}

#[test]
fn test_parse_preamble_only() {
    let input = "Some preamble text\nwith multiple lines\nbut no week headers.";
    let result = parse_worklog(input).unwrap();
    assert_eq!(
        result.weeks,
        vec![],
        "preamble with no weeks should yield empty"
    );
}

#[test]
fn test_parse_invalid_week_number_returns_error() {
    let input = "## Week abc\n";
    let result = parse_worklog(input);
    assert!(
        result.is_err(),
        "non-numeric week number should be an error"
    );
}

// --- Trivial cases ---

#[test]
fn test_parse_single_week_no_days() {
    let input = "## Week 1\n";
    let result = parse_worklog(input).unwrap();
    assert_eq!(
        result.weeks,
        vec![WeekEntry {
            week_number: 1,
            iso_year: None,
            days: vec![],
        }],
        "single week with no days"
    );
}

#[test]
fn test_parse_single_week_one_day_one_item() {
    let input = "## Week 1\n\nJan 5, 2026\n\n* Did a thing\n";
    let result = parse_worklog(input).unwrap();
    assert_eq!(
        result.weeks,
        vec![WeekEntry {
            week_number: 1,
            iso_year: None,
            days: vec![DayEntry {
                date: date(2026, 1, 5),
                items: vec!["Did a thing".to_string()],
            }],
        }],
        "single week, one day, one item"
    );
}

#[test]
fn test_parse_single_week_one_day_multiple_items() {
    let input = "## Week 5\n\nFeb 2, 2026\n\n* Item one\n* Item two\n* Item three\n";
    let result = parse_worklog(input).unwrap();
    assert_eq!(
        result.weeks[0].days[0].items,
        vec!["Item one", "Item two", "Item three"],
        "multiple items parsed in order"
    );
}

#[test]
fn test_parse_single_week_multiple_days() {
    let input =
        "## Week 10\n\nMar 2, 2026\n\n* Morning standup\n\nMar 3, 2026\n\n* Code review\n";
    let result = parse_worklog(input).unwrap();
    let week = &result.weeks[0];
    assert_eq!(week.week_number, 10, "week number");
    assert_eq!(week.days.len(), 2, "two days in the week");
    assert_eq!(week.days[0].date, date(2026, 3, 2), "first day date");
    assert_eq!(week.days[1].date, date(2026, 3, 3), "second day date");
    assert_eq!(week.days[1].items, vec!["Code review"], "second day items");
}

// --- Multiple weeks ---

#[test]
fn test_parse_multiple_weeks() {
    let input =
        "## Week 1\n\nJan 5, 2026\n\n* Item A\n\n## Week 2\n\nJan 12, 2026\n\n* Item B\n";
    let result = parse_worklog(input).unwrap();
    assert_eq!(result.weeks.len(), 2, "two weeks parsed");
    assert_eq!(result.weeks[0].week_number, 1);
    assert_eq!(result.weeks[1].week_number, 2);
    assert_eq!(result.weeks[0].days[0].items, vec!["Item A"]);
    assert_eq!(result.weeks[1].days[0].items, vec!["Item B"]);
}

// --- Bold week headers (archive format) ---

#[test]
fn test_parse_bold_week_header() {
    let input = "## **Week 50**\n\nDec 9, 2025\n\n* Sprint planning\n";
    let result = parse_worklog(input).unwrap();
    assert_eq!(
        result.weeks[0].week_number, 50,
        "bold week header should parse correctly"
    );
    assert_eq!(result.weeks[0].days[0].date, date(2025, 12, 9));
}

// --- Trailing whitespace and backslash continuation (archive format) ---

#[test]
fn test_parse_items_with_trailing_backslash() {
    let input = "## Week 50\n\nDec 9, 2025\n\n* Made QA list  \\\n* Sprint meeting\n";
    let result = parse_worklog(input).unwrap();
    let items = &result.weeks[0].days[0].items;
    assert_eq!(
        items[0], "Made QA list",
        "trailing backslash should be stripped"
    );
    assert_eq!(items[1], "Sprint meeting");
}

#[test]
fn test_parse_items_with_trailing_spaces() {
    let input = "## Week 11\n\nMar 9, 2026\n\n* Attended standup  \n";
    let result = parse_worklog(input).unwrap();
    assert_eq!(
        result.weeks[0].days[0].items[0], "Attended standup",
        "trailing spaces should be stripped from items"
    );
}

// --- Preamble before first week (archive format) ---

#[test]
fn test_parse_with_preamble_before_first_week() {
    let input = "Some preamble text here.\n\n* A preamble bullet\n\n## Week 50\n\nDec 9, 2025\n\n* Real item\n";
    let result = parse_worklog(input).unwrap();
    assert_eq!(
        result.weeks.len(),
        1,
        "preamble should not create extra weeks"
    );
    assert_eq!(result.weeks[0].week_number, 50);
    assert_eq!(
        result.weeks[0].days[0].items,
        vec!["Real item"],
        "only items inside a week/day should be captured"
    );
}

// --- Prose lines with commas should not cause errors ---

#[test]
fn test_parse_prose_with_comma_does_not_error() {
    let input = "## Week 50\n\nDec 9, 2025\n\n* Made QA list\nNote: see Mar 5, above for details\n* Sprint meeting\n";
    let result = parse_worklog(input).unwrap();
    assert_eq!(
        result.weeks[0].days[0].items,
        vec!["Made QA list", "Sprint meeting"],
        "prose lines with commas should be skipped, not cause errors"
    );
}

// --- Real-world data ---

#[test]
fn test_parse_real_worklog_snippet() {
    let input = "## Week 11\n\nMar 9, 2026\n\n* Attended standup\n";
    let result = parse_worklog(input).unwrap();
    assert_eq!(result.weeks.len(), 1, "one week");
    assert_eq!(result.weeks[0].week_number, 11);
    assert_eq!(result.weeks[0].days.len(), 1, "one day");
    assert_eq!(result.weeks[0].days[0].date, date(2026, 3, 9));
    assert_eq!(
        result.weeks[0].days[0].items,
        vec!["Attended standup"],
        "real worklog item"
    );
}

#[test]
fn test_parse_real_archive_snippet() {
    let input = "## **Week 50**\n\nDec 9, 2025\n\n* Made QA assignment list  \n* Sprint balancing meeting  \n\nDec 10, 2025\n\n* Standup  \n* Checked out Mike's log level bug  \n\n## **Week 51**\n\nDec 15, 2025\n\n* Some item\n";
    let result = parse_worklog(input).unwrap();
    assert_eq!(result.weeks.len(), 2, "two weeks from archive snippet");

    let week50 = &result.weeks[0];
    assert_eq!(week50.week_number, 50);
    assert_eq!(week50.days.len(), 2, "two days in week 50");
    assert_eq!(week50.days[0].date, date(2025, 12, 9));
    assert_eq!(
        week50.days[0].items,
        vec!["Made QA assignment list", "Sprint balancing meeting"],
        "week 50 day 1 items"
    );
    assert_eq!(week50.days[1].date, date(2025, 12, 10));
    assert_eq!(
        week50.days[1].items,
        vec!["Standup", "Checked out Mike's log level bug"],
        "week 50 day 2 items"
    );

    let week51 = &result.weeks[1];
    assert_eq!(week51.week_number, 51);
    assert_eq!(week51.days[0].date, date(2025, 12, 15));
}

// --- Further cases of the parser ---

#[test]
fn parse_error_holds_the_header_line() {
    match parse_worklog("## Week 1\n\n## Week 12x  \n## Week 3\n") {
        Err(ParseError::InvalidWeekHeader(line)) => assert_eq!(line, "## Week 12x"),
        other => panic!("expected an error, got {:?}", other),
    }
}

#[test]
fn parse_error_message_names_the_line() {
    let err = parse_worklog("## Week x\n").unwrap_err();
    assert_eq!(err.message(), "invalid week header: ## Week x");
}

#[test]
fn parse_windows_line_endings() {
    let input = "## Week 11\r\n\r\nMar 9, 2026\r\n\r\n* Attended standup\r\n";
    let result = parse_worklog(input).unwrap();
    assert_eq!(result.weeks[0].days[0].date, date(2026, 3, 9));
    assert_eq!(result.weeks[0].days[0].items, vec!["Attended standup"]);
}

#[test]
fn parse_day_before_any_week_is_dropped() {
    let input = "Mar 9, 2026\n* lost\n## Week 11\n* also lost\nMar 10, 2026\n* kept\n";
    let result = parse_worklog(input).unwrap();
    assert_eq!(result.weeks.len(), 1);
    assert_eq!(result.weeks[0].days.len(), 1);
    assert_eq!(result.weeks[0].days[0].date, date(2026, 3, 10));
    assert_eq!(result.weeks[0].days[0].items, vec!["kept"]);
}

#[test]
fn parse_week_header_forms() {
    assert_eq!(parse_week_header("## Week 7").unwrap().unwrap(), 7);
    assert_eq!(parse_week_header("## **Week 42**").unwrap().unwrap(), 42);
    assert_eq!(parse_week_header("## Week +8").unwrap().unwrap(), 8);
    assert_eq!(parse_week_header("## Week  9 ").unwrap().unwrap(), 9);
    assert!(parse_week_header("# Week 7").is_none());
    assert!(parse_week_header("## Notes").is_none());
    assert!(parse_week_header("## Week 4294967296").unwrap().is_err());
    assert_eq!(parse_week_header("## Week 4294967295").unwrap().unwrap(), u32::MAX);
    assert!(parse_week_header("## Week -1").unwrap().is_err());
    match parse_week_header("## Week") {
        None => {}
        Some(_) => panic!("`## Week` without a space is no header"),
    }
}

#[test]
fn clean_item_strips_continuations() {
    assert_eq!(clean_item("Made QA list  \\"), "Made QA list");
    assert_eq!(clean_item("a \\\\\\"), "a");
    assert_eq!(clean_item("keep \\ inside"), "keep \\ inside");
    assert_eq!(clean_item("text\\  "), "text\\");
    assert_eq!(clean_item(""), "");
}

#[test]
fn parse_error_names_the_first_bad_header() {
    let input = "Prose, with a comma\n* stray bullet\n## Week 1\n## Week x  \n## Week y\n";
    match parse_worklog(input) {
        Err(ParseError::InvalidWeekHeader(line)) => assert_eq!(line, "## Week x"),
        Ok(_) => panic!("a malformed header must fail the parse"),
    }
}

#[test]
fn clean_item_keeps_a_backslash_before_whitespace() {
    assert_eq!(clean_item("a\\ \\"), "a\\");
}

#[test]
fn week_header_forms_with_padding_and_plus() {
    assert_eq!(parse_week_header("## Week  +7 ").unwrap().unwrap(), 7);
    assert!(parse_week_header("## **Week 3").is_none());
    assert!(matches!(parse_week_header("## Week 3**"), Some(Err(_))));
}
