use worklog::date::{parse_form_date, Date};
use worklog::db::EntryRow;
use worklog::web::{
    entries_to_worklog, entry_from_form, html_escape, render_index, render_markdown,
    render_new_form, unwrap_first_paragraph, wrap_html,
};

fn date(y: i32, m: u32, d: u32) -> Date {
    Date::from_ymd_opt(y, m, d).unwrap()
}

// --- parse_form_date ---

#[test]
fn test_parse_form_date_returns_none_for_empty_string() {
    assert!(
        parse_form_date("").is_none(),
        "empty string should not parse as a date"
    );
}

#[test]
fn test_parse_form_date_returns_none_for_garbage() {
    assert!(
        parse_form_date("not a date").is_none(),
        "garbage should not parse as a date"
    );
}

#[test]
fn test_parse_form_date_parses_canonical_format() {
    let d = parse_form_date("Mar 9, 2026");
    assert_eq!(d, Some(date(2026, 3, 9)), "canonical format should parse");
}

#[test]
fn test_parse_form_date_trims_whitespace() {
    let d = parse_form_date("  Jan 5, 2026  ");
    assert_eq!(
        d,
        Some(date(2026, 1, 5)),
        "should trim surrounding whitespace"
    );
}

#[test]
fn parse_form_date_rejects_a_day_that_does_not_exist() {
    assert_eq!(parse_form_date("Feb 30, 2026"), None);
}

#[test]
fn parse_form_date_trims_tabs_and_newlines() {
    assert_eq!(parse_form_date("\tDec 31, 2025\n"), Some(date(2025, 12, 31)));
}

// --- html_escape ---

#[test]
fn test_html_escape_plain_text_unchanged() {
    assert_eq!(
        html_escape("Hello world"),
        "Hello world",
        "plain text should pass through unchanged"
    );
}

#[test]
fn test_html_escape_replaces_all_special_characters() {
    let input = r#"<script>alert('x & "y"')</script>"#;
    let out = html_escape(input);
    assert!(!out.contains('<'), "escaped output must not contain raw <");
    assert!(!out.contains('>'), "escaped output must not contain raw >");
    assert!(
        !out.contains('&')
            || out.contains("&amp;")
            || out.contains("&lt;")
            || out.contains("&gt;")
            || out.contains("&quot;")
            || out.contains("&#39;"),
        "remaining & must be part of an escape sequence"
    );
}

#[test]
fn html_escape_gives_each_escape_exactly() {
    assert_eq!(
        html_escape("a&b<c>d\"e'f\ng"),
        "a&amp;b&lt;c&gt;d&quot;e&#39;f&#10;g"
    );
}

#[test]
fn html_escape_of_escaped_text_holds_no_raw_markup() {
    let out = html_escape("<a href=\"x\">it's</a>\n");
    for c in ['<', '>', '"', '\'', '\n'] {
        assert!(!out.contains(c), "{out}");
    }
}

#[test]
fn html_escape_of_empty_text_is_empty() {
    assert_eq!(html_escape(""), "");
}

// --- render_markdown ---

#[test]
fn test_render_markdown_plain_text() {
    let html = render_markdown("Hello world");
    assert_eq!(
        html, "Hello world",
        "single-line plain text should have p stripped"
    );
}

#[test]
fn test_render_markdown_multiline_with_sublist() {
    let input = "Main task\n\n- Sub item A\n- Sub item B";
    let html = render_markdown(input);
    assert!(
        html.contains("<li>"),
        "sub-list items should render as list items: {html}"
    );
    assert!(
        html.contains("Sub item A"),
        "sub-list content preserved: {html}"
    );
}

#[test]
fn test_render_markdown_link() {
    let html = render_markdown("See [#17095](https://github.com/example)");
    assert!(
        html.contains(r#"<a href="https://github.com/example">#17095</a>"#),
        "markdown links should render as HTML anchors: {html}"
    );
}

#[test]
fn test_render_markdown_emoji_shortcode() {
    let html = render_markdown("Great work :heart:");
    assert!(
        html.contains('\u{2764}') || html.contains("❤"),
        "emoji shortcodes should render as unicode: {html}"
    );
}

#[test]
fn test_render_markdown_bold_and_strikethrough() {
    let html = render_markdown("**bold** and ~~struck~~");
    assert!(html.contains("<strong>bold</strong>"), "bold: {html}");
    assert!(html.contains("<del>struck</del>"), "strikethrough: {html}");
}

#[test]
fn render_markdown_keeps_the_first_line_inline_before_a_sub_list() {
    let html = render_markdown("Main task\n\n- Sub item A");
    assert!(html.starts_with("Main task\n<ul>"), "{html}");
    assert!(!html.starts_with("<p>"), "{html}");
}

#[test]
fn render_markdown_omits_raw_html() {
    let html = render_markdown("Fix <bug> now");
    assert!(!html.contains("<bug>"), "{html}");
}

// --- unwrap_first_paragraph ---

#[test]
fn unwrap_first_paragraph_strips_a_single_paragraph() {
    assert_eq!(unwrap_first_paragraph("<p>Hello</p>\n"), "Hello");
}

#[test]
fn unwrap_first_paragraph_keeps_what_follows_on_a_new_line() {
    assert_eq!(
        unwrap_first_paragraph("<p>One</p>\n<ul>\n<li>x</li>\n</ul>\n"),
        "One\n<ul>\n<li>x</li>\n</ul>"
    );
}

#[test]
fn unwrap_first_paragraph_leaves_other_html_trimmed() {
    assert_eq!(unwrap_first_paragraph("  <ul><li>x</li></ul>\n"), "<ul><li>x</li></ul>");
    assert_eq!(unwrap_first_paragraph("<p>never closed"), "<p>never closed");
}

// --- entries_to_worklog ---

#[test]
fn test_entries_to_worklog_empty_input() {
    let wl = entries_to_worklog(vec![]);
    assert!(
        wl.weeks.is_empty(),
        "no entries should produce empty WorkLog"
    );
}

#[test]
fn test_entries_to_worklog_groups_by_week() {
    let entries = vec![
        EntryRow {
            id: 1,
            date: date(2026, 3, 10),
            item_text: "Tue item".into(),
            created_at: "2026-03-10".into(),
            sort_order: 0,
        },
        EntryRow {
            id: 2,
            date: date(2026, 3, 9),
            item_text: "Mon item".into(),
            created_at: "2026-03-09".into(),
            sort_order: 0,
        },
        EntryRow {
            id: 3,
            date: date(2026, 3, 2),
            item_text: "Older item".into(),
            created_at: "2026-03-02".into(),
            sort_order: 0,
        },
    ];

    let wl = entries_to_worklog(entries);
    assert_eq!(wl.weeks.len(), 2, "two ISO weeks");
    assert_eq!(wl.weeks[0].week_number, 11, "week 11 first (newest)");
    assert_eq!(wl.weeks[0].days.len(), 2);
    assert_eq!(wl.weeks[1].week_number, 10);
}

#[test]
fn entries_to_worklog_orders_days_newest_first_and_keeps_item_order() {
    let entries = vec![
        entry_row(1, date(2026, 3, 9), "Mon first"),
        entry_row(2, date(2026, 3, 9), "Mon second"),
        entry_row(3, date(2026, 3, 11), "Wed item"),
    ];
    let wl = entries_to_worklog(entries);
    assert_eq!(wl.weeks.len(), 1);
    assert_eq!(wl.weeks[0].iso_year, Some(2026));
    assert_eq!(wl.weeks[0].days[0].date, date(2026, 3, 11));
    assert_eq!(wl.weeks[0].days[1].date, date(2026, 3, 9));
    assert_eq!(wl.weeks[0].days[1].items, vec!["Mon first", "Mon second"]);
}

#[test]
fn entries_to_worklog_uses_the_iso_year_at_a_year_boundary() {
    // Dec 29, 2025 lies in ISO week 1 of 2026; Dec 28, 2025 in week 52 of 2025.
    let entries = vec![
        entry_row(1, date(2025, 12, 29), "Boundary"),
        entry_row(2, date(2025, 12, 28), "Sunday"),
    ];
    let wl = entries_to_worklog(entries);
    assert_eq!(wl.weeks.len(), 2);
    assert_eq!((wl.weeks[0].week_number, wl.weeks[0].iso_year), (1, Some(2026)));
    assert_eq!((wl.weeks[1].week_number, wl.weeks[1].iso_year), (52, Some(2025)));
}

// --- render_index ---

fn entry_row(id: i64, d: Date, text: &str) -> EntryRow {
    EntryRow {
        id,
        date: d,
        item_text: text.into(),
        created_at: d.iso_text(),
        sort_order: 0,
    }
}

#[test]
fn test_render_index_empty_log_shows_no_entries_message() {
    let html = render_index(&[], "worklog");
    assert!(
        html.contains("No entries yet"),
        "empty log should say 'No entries yet'"
    );
}

#[test]
fn test_render_index_shows_week_header_with_year() {
    let entries = vec![entry_row(1, date(2026, 3, 9), "Task")];
    let html = render_index(&entries, "worklog");
    assert!(
        html.contains("Week 11"),
        "rendered HTML should contain week header"
    );
    assert!(
        html.contains("2026"),
        "rendered HTML should contain the year"
    );
}

#[test]
fn test_render_index_shows_items() {
    let entries = vec![entry_row(1, date(2026, 3, 9), "Attended standup")];
    let html = render_index(&entries, "worklog");
    assert!(
        html.contains("Attended standup"),
        "rendered HTML should contain the work item"
    );
    assert!(
        html.contains("Mar 9, 2026"),
        "rendered HTML should contain the formatted date"
    );
}

#[test]
fn test_render_index_escapes_html_in_items() {
    let entries = vec![entry_row(1, date(2026, 3, 9), "Fix <bug> & deploy")];
    let html = render_index(&entries, "worklog");
    assert!(
        !html.contains("<bug>"),
        "raw < and > in items must be HTML-escaped by comrak"
    );
}

#[test]
fn test_render_index_includes_entry_text_class_and_data_id() {
    let entries = vec![entry_row(42, date(2026, 3, 9), "Attended standup")];
    let html = render_index(&entries, "worklog");
    assert!(
        html.contains("class=\"entry-text\""),
        "index should use entry-text class for inline editing: {html}"
    );
    assert!(
        html.contains("data-id=\"42\""),
        "index should include data-id attribute for each entry: {html}"
    );
    assert!(
        html.contains("/entries/42/delete"),
        "index should include a delete route for each entry: {html}"
    );
}

#[test]
fn render_index_writes_week_and_day_headings_exactly() {
    let entries = vec![entry_row(7, date(2026, 3, 9), "Task")];
    let html = render_index(&entries, "worklog");
    assert!(html.contains("<h1>worklog</h1>"), "{html}");
    assert!(html.contains("<h2>Week 11, 2026</h2><h3>Mar 9, 2026</h3><ul><li draggable=\"true\" data-id=\"7\">"), "{html}");
    assert!(html.contains("data-original=\"Task\">Task</span>"), "{html}");
    assert!(html.contains("<form id=\"del-7\" method=\"post\" action=\"/entries/7/delete\""), "{html}");
    assert!(!html.contains("No entries yet"), "{html}");
}

#[test]
fn render_index_keeps_days_in_the_order_of_the_rows() {
    let entries = vec![
        entry_row(1, date(2026, 3, 10), "Tue"),
        entry_row(2, date(2026, 3, 9), "Mon"),
        entry_row(3, date(2026, 3, 2), "Older"),
    ];
    let html = render_index(&entries, "worklog");
    let tue = html.find("Mar 10, 2026").unwrap();
    let mon = html.find("Mar 9, 2026").unwrap();
    let week10 = html.find("Week 10, 2026").unwrap();
    let older = html.find("Mar 2, 2026").unwrap();
    assert!(tue < mon && mon < week10 && week10 < older, "{html}");
}

#[test]
fn render_index_escapes_the_display_name() {
    let html = render_index(&[], "<b>me</b>");
    assert!(html.contains("<h1>&lt;b&gt;me&lt;/b&gt;</h1>"), "{html}");
}

#[test]
fn render_index_escapes_the_raw_text_in_the_attribute() {
    let entries = vec![entry_row(1, date(2026, 3, 9), "say \"hi\"\nthen 'go'")];
    let html = render_index(&entries, "worklog");
    assert!(
        html.contains("data-original=\"say &quot;hi&quot;&#10;then &#39;go&#39;\""),
        "{html}"
    );
}

#[test]
fn render_index_writes_negative_ids() {
    let entries = vec![entry_row(-3, date(2026, 3, 9), "Task")];
    let html = render_index(&entries, "worklog");
    assert!(html.contains("/entries/-3/delete"), "{html}");
}

// --- render_new_form ---

#[test]
fn test_render_new_form_contains_prefilled_date() {
    let html = render_new_form("Mar 9, 2026", "worklog");
    assert!(
        html.contains("Mar 9, 2026"),
        "form should contain the pre-filled date"
    );
}

#[test]
fn test_render_new_form_posts_to_entries() {
    let html = render_new_form("Mar 9, 2026", "worklog");
    assert!(
        html.contains(r#"action="/entries""#),
        "form action should post to /entries"
    );
}

#[test]
fn render_new_form_escapes_the_date_and_titles_the_page() {
    let html = render_new_form("<x>", "worklog");
    assert!(html.contains("value=\"&lt;x&gt;\""), "{html}");
    assert!(html.contains("<title>New Entry — worklog</title>"), "{html}");
}

// --- custom display name ---

#[test]
fn test_render_index_uses_custom_display_name() {
    let html = render_index(&[], "My Work Tracker");
    assert!(
        html.contains("My Work Tracker"),
        "index should show custom display name"
    );
}

#[test]
fn test_render_new_form_uses_custom_display_name() {
    let html = render_new_form("Mar 9, 2026", "My Tracker");
    assert!(
        html.contains("My Tracker"),
        "new form title should contain custom display name"
    );
}

// --- favicon ---

#[test]
fn test_wrap_html_includes_favicon() {
    let html = wrap_html("test", "body");
    assert!(
        html.contains(r#"rel="icon""#),
        "pages should include a favicon link"
    );
}

#[test]
fn wrap_html_places_title_and_body() {
    let html = wrap_html("T", "<p>B</p>");
    assert!(html.starts_with("<!DOCTYPE html>\n"), "{html}");
    assert!(html.contains("<title>T</title>\n<style>"), "{html}");
    assert!(html.contains("<body>\n<p>B</p>\n<script>"), "{html}");
    assert!(html.ends_with("</html>\n"), "{html}");
}

// --- draggable ---

#[test]
fn test_render_index_includes_draggable_attribute() {
    let entries = vec![entry_row(1, date(2026, 3, 9), "Task")];
    let html = render_index(&entries, "worklog");
    assert!(
        html.contains(r#"draggable="true""#),
        "list items should be draggable: {html}"
    );
}

// --- entry_from_form ---

#[test]
fn entry_from_form_skips_blank_items() {
    assert_eq!(entry_from_form("Mar 9, 2026", "   \n ", date(2026, 1, 1)), None);
}

#[test]
fn entry_from_form_uses_the_form_date_and_trims_the_text() {
    assert_eq!(
        entry_from_form(" Mar 9, 2026 ", "  Wrote tests \n", date(2026, 1, 1)),
        Some((date(2026, 3, 9), "Wrote tests".to_string()))
    );
}

#[test]
fn entry_from_form_falls_back_to_today() {
    assert_eq!(
        entry_from_form("yesterday", "Task", date(2026, 1, 1)),
        Some((date(2026, 1, 1), "Task".to_string()))
    );
}
