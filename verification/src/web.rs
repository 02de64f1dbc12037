//! The HTML pages of the worklog: escaping, the page frame, the entry form,
//! markdown items, and the index page that groups entries by week and day.
use comrak::{markdown_to_html, Options};
use vstd::prelude::*;

use crate::date::{group_date, short_date_text, Date};
use crate::db::{rows_view, EntryRow, EntryView};
use crate::group::{
    day_group_matches, group_rows, key_of, groups_match, DayGroup, WeekGroup, rows_on, week_dates, week_group_matches,
    week_keys, worklog_from_rows, worklog_of_rows, WeekKey,
};
use crate::parser::WorkLog;
use crate::text::{
    chars_of, contains_seq, decimal, ends_with_spec, lemma_contains_middle, lemma_contains_parts, lemma_contains_trans, matches_at, find, find_spec, int_text, int_to_chars, push_chars, push_decimal,
    starts_with, starts_with_spec, sub_chars, trim_chars, trim_spec, trim_start_len,
    trim_start_spec,
};

verus! {

broadcast use vstd::string::group_string_axioms, group_date;

// ---------------------------------------------------------------------------
// Page text
// ---------------------------------------------------------------------------

/// The head of every page after the `<html>` tag, up to its title: character set, viewport, favicon.
pub const PAGE_HEAD: &'static str = "\n<head>\n<meta charset=\"utf-8\">\n<meta name=\"viewport\" content=\"width=device-width, initial-scale=1\">\n<link rel=\"icon\" href=\"data:image/svg+xml,<svg xmlns='http://www.w3.org/2000/svg' viewBox='0 0 100 100'><text y='.9em' font-size='90'>📋</text></svg>\">\n";

/// The style sheet of every page.
pub const STYLES: &'static str = "\n    body {\n        font-family: system-ui, sans-serif;\n        max-width: 800px;\n        margin: 2rem auto;\n        padding: 0 1rem;\n        color: #222;\n        background: #fafafa;\n    }\n    h1 { font-size: 1.6rem; margin-bottom: 1.5rem; }\n    h2 { font-size: 1.2rem; border-bottom: 1px solid #ddd; padding-bottom: 0.3rem; margin-top: 2rem; }\n    h3 { font-size: 1rem; color: #555; margin-bottom: 0.25rem; }\n    ul  { margin: 0.25rem 0 1rem 1.5rem; padding: 0; }\n    li  { margin: 0.2rem 0; }\n    ul:not(.entry-text ul) > li { display: flex; align-items: baseline; list-style: none; }\n    ul:not(.entry-text ul) > li::before { content: \"\\2022\"; margin-right: 0.5rem; flex-shrink: 0; }\n    .entry-text { flex: 1; }\n    .entry-text p { margin: 0; }\n    .entry-text ul, .entry-text ol { margin: 0; padding: 0; padding-left: 1.2rem; }\n    .entry-text li { display: list-item; margin: 0; }\n    a.button, button {\n        display: inline-block;\n        padding: 0.4rem 0.9rem;\n        background: #2563eb;\n        color: #fff;\n        border: none;\n        border-radius: 4px;\n        cursor: pointer;\n        text-decoration: none;\n        font-size: 0.9rem;\n    }\n    a.button:hover, button:hover { background: #1d4ed8; }\n    label { display: block; margin-bottom: 0.25rem; font-weight: 600; }\n    input[type=text], textarea {\n        width: 100%;\n        padding: 0.4rem 0.5rem;\n        border: 1px solid #ccc;\n        border-radius: 4px;\n        font-size: 0.95rem;\n        box-sizing: border-box;\n    }\n    textarea { min-height: 6rem; resize: vertical; }\n    .form-group { margin-bottom: 1rem; }\n    .hint { font-size: 0.8rem; color: #666; margin-top: 0.2rem; }\n    .entry-text {\n        cursor: text;\n        padding: 2px 4px;\n        border-radius: 3px;\n        border: 1px solid transparent;\n        transition: border-color 0.15s, background-color 0.15s;\n    }\n    .entry-text:hover {\n        background: #f0f4ff;\n    }\n    .entry-edit-area {\n        width: 100%;\n        min-height: 3rem;\n        padding: 4px 6px;\n        border: 1px solid #93b4f5;\n        border-radius: 3px;\n        background: #f0f4ff;\n        font-family: system-ui, sans-serif;\n        font-size: 0.95rem;\n        resize: vertical;\n        box-sizing: border-box;\n    }\n    .entry-actions {\n        margin-left: 0.5rem;\n        font-size: 0.8rem;\n        visibility: hidden;\n        vertical-align: middle;\n    }\n    li:hover .entry-actions {\n        visibility: visible;\n    }\n    li[draggable=\"true\"] { cursor: grab; }\n    li[draggable=\"true\"]:active { cursor: grabbing; }\n    li.dragging { opacity: 0.4; }\n    li.drag-over { border-top: 2px solid #2563eb; padding-top: 0; }\n";

/// The client-side script of every page: inline editing, reordering and deleting.
pub const PAGE_SCRIPT: &'static str = "\ndocument.addEventListener('DOMContentLoaded', () => {\n  // Click to edit — replace rendered HTML with a textarea\n  document.querySelectorAll('.entry-text').forEach(el => {\n    el.addEventListener('click', () => {\n      if (el.querySelector('textarea')) return;\n      const original = el.dataset.original;\n      const ta = document.createElement('textarea');\n      ta.className = 'entry-edit-area';\n      ta.value = original;\n      ta.dataset.id = el.dataset.id;\n      el._savedHtml = el.innerHTML;\n      el.innerHTML = '';\n      el.style.border = 'none';\n      el.appendChild(ta);\n      ta.focus();\n      ta.setSelectionRange(ta.value.length, ta.value.length);\n      // Auto-size to content\n      ta.style.height = ta.scrollHeight + 'px';\n    });\n  });\n\n  // Save on Ctrl+Enter, cancel on Escape\n  document.addEventListener('keydown', (e) => {\n    if (e.target.tagName !== 'TEXTAREA' || !e.target.classList.contains('entry-edit-area')) return;\n    const ta = e.target;\n    const span = ta.parentElement;\n    if (e.key === 'Enter' && (e.ctrlKey || e.metaKey)) {\n      e.preventDefault();\n      ta.blur();\n    } else if (e.key === 'Escape') {\n      span.innerHTML = span._savedHtml;\n      span.style.border = '';\n    }\n  });\n\n  // Save on blur\n  document.addEventListener('focusout', (e) => {\n    const ta = e.target;\n    if (ta.tagName !== 'TEXTAREA' || !ta.classList.contains('entry-edit-area')) return;\n    const span = ta.parentElement;\n    if (!span) return;\n    const newText = ta.value.trim();\n    const original = span.dataset.original;\n    if (newText === original) {\n      span.innerHTML = span._savedHtml;\n      span.style.border = '';\n      return;\n    }\n    fetch('/entries/' + span.dataset.id, {\n      method: 'POST',\n      headers: {'Content-Type': 'application/json'},\n      body: JSON.stringify({item_text: newText})\n    }).then(r => { if (r.ok) location.reload(); });\n  });\n\n  // Drag-to-reorder entries within a day\n  let dragSrc = null;\n  document.querySelectorAll('li[draggable=\"true\"]').forEach(li => {\n    li.addEventListener('dragstart', (e) => {\n      dragSrc = li;\n      li.classList.add('dragging');\n      e.dataTransfer.effectAllowed = 'move';\n    });\n    li.addEventListener('dragend', () => {\n      li.classList.remove('dragging');\n      document.querySelectorAll('.drag-over').forEach(el => el.classList.remove('drag-over'));\n      dragSrc = null;\n    });\n    li.addEventListener('dragover', (e) => {\n      e.preventDefault();\n      e.dataTransfer.dropEffect = 'move';\n      if (li !== dragSrc && li.parentElement === dragSrc?.parentElement) {\n        li.classList.add('drag-over');\n      }\n    });\n    li.addEventListener('dragleave', () => {\n      li.classList.remove('drag-over');\n    });\n    li.addEventListener('drop', (e) => {\n      e.preventDefault();\n      li.classList.remove('drag-over');\n      if (!dragSrc || dragSrc === li) return;\n      const ul = li.parentElement;\n      if (ul !== dragSrc.parentElement) return;\n      // Insert dragged item before the drop target\n      ul.insertBefore(dragSrc, li);\n      // Send new sort_order for all items in this list\n      const items = ul.querySelectorAll('li[draggable=\"true\"]');\n      items.forEach((item, idx) => {\n        const id = item.dataset.id;\n        fetch('/entries/' + id + '/reorder', {\n          method: 'POST',\n          headers: {'Content-Type': 'application/json'},\n          body: JSON.stringify({sort_order: idx})\n        });\n      });\n    });\n  });\n\n  // Delete on trash click\n  document.querySelectorAll('.delete-btn').forEach(btn => {\n    btn.addEventListener('click', (e) => {\n      e.preventDefault();\n      if (!confirm('Delete this entry?')) return;\n      const id = btn.dataset.id;\n      fetch('/entries/' + id + '/delete', {method: 'POST'})\n        .then(r => { if (r.ok) location.reload(); });\n    });\n  });\n});\n";

/// The entry form, up to its action.
pub const FORM_HEADING: &'static str = "\n<h1>New Entry</h1>\n<form method=\"post\" ";

/// The entry form, from its action to the value of its date field.
pub const FORM_DATE_INPUT: &'static str = ">\n  <div class=\"form-group\">\n    <label for=\"date\">Date</label>\n    <input type=\"text\" id=\"date\" name=\"date\" ";

/// The entry form, after the value of its date field.
pub const FORM_REST: &'static str = " />\n    <p class=\"hint\">Format: Mon D, YYYY (e.g. Mar 9, 2026)</p>\n  </div>\n  <div class=\"form-group\">\n    <label for=\"items\">Items</label>\n    <textarea id=\"items\" name=\"items\" placeholder=\"What did you work on?\"></textarea>\n    <p class=\"hint\">Markdown supported. The entire content becomes one entry.</p>\n  </div>\n  <button type=\"submit\">Save</button>\n  <a href=\"/\" class=\"button\" style=\"background:#6b7280;margin-left:0.5rem;\">Cancel</a>\n</form>\n";

/// An index item, up to its id.
pub const ITEM_OPEN: &'static str = "<li draggable=\"true\" data-id=\"";

/// An index item, between its id and the id of its text.
pub const ITEM_TEXT_OPEN: &'static str = "\">\n  <span class=\"entry-text\" data-id=\"";

/// An index item, before its escaped raw text.
pub const ITEM_ORIGINAL: &'static str = "\" data-original=\"";

/// An index item, before its rendered markdown.
pub const ITEM_RENDERED: &'static str = "\">";

/// An index item, from its rendered markdown to the id of its delete button.
pub const ITEM_ACTIONS: &'static str = "</span>\n  <span class=\"entry-actions\">\n    <a href=\"#\" class=\"delete-btn\" data-id=\"";

/// An index item, before the id in its delete form's name.
pub const ITEM_FORM_ID: &'static str = "\" title=\"Delete\">&#128465;</a>\n    <form id=\"del-";

/// An index item, before the id in its delete route.
pub const ITEM_FORM_ACTION: &'static str = "\" method=\"post\" action=\"/entries/";

/// The end of an index item, after the id in its delete route.
pub const ITEM_CLOSE: &'static str = "/delete\" style=\"display:none\"></form>\n  </span>\n</li>";

/// The title of the entry form page, before the display name.
pub const NEW_FORM_TITLE: &'static str = "New Entry — ";

/// The buttons under the index page's heading.
pub const INDEX_BUTTONS: &'static str = "<p><a href=\"/new\" class=\"button\">+ New Entry</a>&nbsp;<a href=\"/export\" class=\"button\" style=\"background:#6b7280;\">Export Markdown</a></p>";

/// What the index page says when there are no entries.
pub const NO_ENTRIES: &'static str = "<p><em>No entries yet.</em></p>";

/// What the index page says for a day without items.
pub const NO_ITEMS: &'static str = "<p><em>(no items)</em></p>";

// ---------------------------------------------------------------------------
// Escaping
// ---------------------------------------------------------------------------

/// The HTML escape of one character: `&`, `<`, `>`, `"`, `'` and newline become
/// character references; other characters stay.
pub open spec fn escape_char(c: char) -> Seq<char> {
    if c == '&' {
        "&amp;"@
    } else if c == '<' {
        "&lt;"@
    } else if c == '>' {
        "&gt;"@
    } else if c == '"' {
        "&quot;"@
    } else if c == '\'' {
        "&#39;"@
    } else if c == '\n' {
        "&#10;"@
    } else {
        seq![c]
    }
}

/// The HTML escape of `s`, character by character.
pub open spec fn html_escape_spec(s: Seq<char>) -> Seq<char>
    decreases s.len(),
{
    if s.len() == 0 {
        Seq::empty()
    } else {
        html_escape_spec(s.drop_last()) + escape_char(s.last())
    }
}

/// Appends the HTML escape of `s` to `out`.
fn push_escaped(out: &mut String, s: &Vec<char>)
    ensures
        final(out)@ == old(out)@ + html_escape_spec(s@),
{
    let mut i: usize = 0;
    assert(s@.take(0) =~= Seq::<char>::empty());
    while i < s.len()
        invariant
            i <= s@.len(),
            out@ == old(out)@ + html_escape_spec(s@.take(i as int)),
        decreases s@.len() - i,
    {
        let c = s[i];
        let ghost before = out@;
        if c == '&' {
            out.append("&amp;");
        } else if c == '<' {
            out.append("&lt;");
        } else if c == '>' {
            out.append("&gt;");
        } else if c == '"' {
            out.append("&quot;");
        } else if c == '\'' {
            out.append("&#39;");
        } else if c == '\n' {
            out.append("&#10;");
        } else {
            let one = vec![c];
            push_chars(out, &one);
            assert(one@ =~= seq![c]);
        }
        assert(out@ == before + escape_char(c));
        assert(s@.take(i + 1).drop_last() =~= s@.take(i as int));
        i = i + 1;
    }
    assert(s@.take(s@.len() as int) =~= s@);
}

/// Escapes the HTML special characters (`&`, `<`, `>`, `"`, `'`) and newlines,
/// for use in HTML text and attributes.
pub fn html_escape(s: &str) -> (r: String)
    ensures
        r@ == html_escape_spec(s@),
{
    let chars = chars_of(s);
    let mut out = String::new();
    push_escaped(&mut out, &chars);
    out
}

/// A character that HTML escaping replaces.
pub open spec fn is_escaped_char(c: char) -> bool {
    c == '&' || c == '<' || c == '>' || c == '"' || c == '\'' || c == '\n'
}

/// The escape of a character holds no `<`, `>`, `"`, `'` or newline.
proof fn lemma_escape_char_safe(c: char)
    ensures
        forall|i: int|
            0 <= i < escape_char(c).len() ==> {
                let e = #[trigger] escape_char(c)[i];
                e != '<' && e != '>' && e != '"' && e != '\'' && e != '\n'
            },
{
    reveal_strlit("&amp;");
    reveal_strlit("&lt;");
    reveal_strlit("&gt;");
    reveal_strlit("&quot;");
    reveal_strlit("&#39;");
    reveal_strlit("&#10;");
}

/// Escaped text holds no raw `<`, `>`, `"`, `'` or newline, so it can stand in
/// HTML text and in quoted attributes.
pub proof fn lemma_escaped_text_is_inert(s: Seq<char>)
    ensures
        forall|i: int|
            0 <= i < html_escape_spec(s).len() ==> {
                let e = #[trigger] html_escape_spec(s)[i];
                e != '<' && e != '>' && e != '"' && e != '\'' && e != '\n'
            },
    decreases s.len(),
{
    if s.len() > 0 {
        lemma_escaped_text_is_inert(s.drop_last());
        lemma_escape_char_safe(s.last());
        let a = html_escape_spec(s.drop_last());
        let b = escape_char(s.last());
        assert forall|i: int| 0 <= i < (a + b).len() implies {
            let e = #[trigger] (a + b)[i];
            e != '<' && e != '>' && e != '"' && e != '\'' && e != '\n'
        } by {
            if i < a.len() {
                assert((a + b)[i] == a[i]);
            } else {
                assert((a + b)[i] == b[i - a.len()]);
            }
        }
    }
}

/// Text without characters to escape is unchanged by escaping.
pub proof fn lemma_escape_plain_text(s: Seq<char>)
    requires
        forall|i: int| 0 <= i < s.len() ==> !is_escaped_char(#[trigger] s[i]),
    ensures
        html_escape_spec(s) == s,
    decreases s.len(),
{
    if s.len() > 0 {
        assert(!is_escaped_char(s[s.len() - 1]));
        lemma_escape_plain_text(s.drop_last());
        assert(s.drop_last().push(s.last()) =~= s);
    }
}

/// The character references that escaping writes, in the order in which
/// decoding tries them.
pub open spec fn escape_entities() -> Seq<Seq<char>> {
    seq![
        seq!['&', 'a', 'm', 'p', ';'],
        seq!['&', 'l', 't', ';'],
        seq!['&', 'g', 't', ';'],
        seq!['&', 'q', 'u', 'o', 't', ';'],
        seq!['&', '#', '3', '9', ';'],
        seq!['&', '#', '1', '0', ';'],
    ]
}

/// The characters that the references of `escape_entities` stand for.
pub open spec fn entity_chars() -> Seq<char> {
    seq!['&', '<', '>', '"', '\'', '\n']
}

/// Decodes the references of `escape_entities` in one pass from left to right;
/// other characters stay.
pub open spec fn html_unescape_spec(o: Seq<char>) -> Seq<char>
    decreases o.len(),
{
    if o.len() == 0 {
        Seq::empty()
    } else if starts_with_spec(o, escape_entities()[0]) {
        seq![entity_chars()[0]] + html_unescape_spec(o.skip(5))
    } else if starts_with_spec(o, escape_entities()[1]) {
        seq![entity_chars()[1]] + html_unescape_spec(o.skip(4))
    } else if starts_with_spec(o, escape_entities()[2]) {
        seq![entity_chars()[2]] + html_unescape_spec(o.skip(4))
    } else if starts_with_spec(o, escape_entities()[3]) {
        seq![entity_chars()[3]] + html_unescape_spec(o.skip(6))
    } else if starts_with_spec(o, escape_entities()[4]) {
        seq![entity_chars()[4]] + html_unescape_spec(o.skip(5))
    } else if starts_with_spec(o, escape_entities()[5]) {
        seq![entity_chars()[5]] + html_unescape_spec(o.skip(5))
    } else {
        seq![o[0]] + html_unescape_spec(o.skip(1))
    }
}

/// `escape_char` writes the references of `escape_entities`.
proof fn lemma_escape_char_entities(c: char)
    ensures
        c == '&' ==> escape_char(c) == escape_entities()[0],
        c == '<' ==> escape_char(c) == escape_entities()[1],
        c == '>' ==> escape_char(c) == escape_entities()[2],
        c == '"' ==> escape_char(c) == escape_entities()[3],
        c == '\'' ==> escape_char(c) == escape_entities()[4],
        c == '\n' ==> escape_char(c) == escape_entities()[5],
        !is_escaped_char(c) ==> escape_char(c) == seq![c],
{
    reveal_strlit("&amp;");
    reveal_strlit("&lt;");
    reveal_strlit("&gt;");
    reveal_strlit("&quot;");
    reveal_strlit("&#39;");
    reveal_strlit("&#10;");
    assert(c == '&' ==> escape_char(c) =~= escape_entities()[0]);
    assert(c == '<' ==> escape_char(c) =~= escape_entities()[1]);
    assert(c == '>' ==> escape_char(c) =~= escape_entities()[2]);
    assert(c == '"' ==> escape_char(c) =~= escape_entities()[3]);
    assert(c == '\'' ==> escape_char(c) =~= escape_entities()[4]);
    assert(c == '\n' ==> escape_char(c) =~= escape_entities()[5]);
}

/// Escaping works from the front as well: the first character's escape, then
/// the escape of the rest.
proof fn lemma_escape_front(s: Seq<char>)
    requires
        s.len() > 0,
    ensures
        html_escape_spec(s) == escape_char(s[0]) + html_escape_spec(s.drop_first()),
    decreases s.len(),
{
    if s.len() == 1 {
        assert(s.drop_first() =~= Seq::<char>::empty());
        assert(s.drop_last() =~= Seq::<char>::empty());
        assert(html_escape_spec(s.drop_last()) =~= Seq::<char>::empty());
        assert(s.last() == s[0]);
        assert(html_escape_spec(s) =~= escape_char(s[0]));
    } else {
        lemma_escape_front(s.drop_last());
        assert(s.drop_last().drop_first() =~= s.drop_first().drop_last());
        assert(s.drop_first().last() == s.last());
        assert(s.drop_last()[0] == s[0]);
        assert(html_escape_spec(s) =~= escape_char(s[0]) + html_escape_spec(s.drop_first()));
    }
}

/// Decoding the references, left to right, gives back the escaped text.
pub proof fn lemma_escape_decodes(s: Seq<char>)
    ensures
        html_unescape_spec(html_escape_spec(s)) == s,
    decreases s.len(),
{
    if s.len() == 0 {
        assert(html_escape_spec(s) =~= Seq::<char>::empty());
    } else {
        let c = s[0];
        let rest = html_escape_spec(s.drop_first());
        let e = escape_char(c);
        let o = html_escape_spec(s);
        lemma_escape_front(s);
        lemma_escape_char_entities(c);
        lemma_escape_decodes(s.drop_first());
        assert(o == e + rest);
        assert(o.skip(e.len() as int) =~= rest);
        assert(e.len() > 0);
        assert(o[0] == e[0]);
        if is_escaped_char(c) {
            assert(o.take(e.len() as int) =~= e);
            if c == '&' {
                assert(starts_with_spec(o, escape_entities()[0]));
            } else if c == '<' {
                assert(o[1] == 'l');
                assert(!starts_with_spec(o, escape_entities()[0]));
                assert(starts_with_spec(o, escape_entities()[1]));
            } else if c == '>' {
                assert(o[1] == 'g');
                assert(!starts_with_spec(o, escape_entities()[0]));
                assert(!starts_with_spec(o, escape_entities()[1]));
                assert(starts_with_spec(o, escape_entities()[2]));
            } else if c == '"' {
                assert(o[1] == 'q');
                assert(!starts_with_spec(o, escape_entities()[0]));
                assert(!starts_with_spec(o, escape_entities()[1]));
                assert(!starts_with_spec(o, escape_entities()[2]));
                assert(starts_with_spec(o, escape_entities()[3]));
            } else if c == '\'' {
                assert(o[1] == '#' && o[2] == '3');
                assert(!starts_with_spec(o, escape_entities()[0]));
                assert(!starts_with_spec(o, escape_entities()[1]));
                assert(!starts_with_spec(o, escape_entities()[2]));
                assert(!starts_with_spec(o, escape_entities()[3]));
                assert(starts_with_spec(o, escape_entities()[4]));
            } else {
                assert(o[1] == '#' && o[2] == '1');
                assert(!starts_with_spec(o, escape_entities()[0]));
                assert(!starts_with_spec(o, escape_entities()[1]));
                assert(!starts_with_spec(o, escape_entities()[2]));
                assert(!starts_with_spec(o, escape_entities()[3]));
                assert(!starts_with_spec(o, escape_entities()[4]));
                assert(starts_with_spec(o, escape_entities()[5]));
            }
            assert(html_unescape_spec(o) =~= seq![c] + s.drop_first());
        } else {
            assert(o[0] == c);
            assert forall|k: int| 0 <= k < 6 implies !starts_with_spec(o, #[trigger] escape_entities()[k]) by {
                let en = escape_entities()[k];
                assert(en[0] == '&');
                if starts_with_spec(o, en) {
                    assert(o.take(en.len() as int)[0] == o[0]);
                }
            }
            assert(!starts_with_spec(o, escape_entities()[0]));
            assert(!starts_with_spec(o, escape_entities()[1]));
            assert(!starts_with_spec(o, escape_entities()[2]));
            assert(!starts_with_spec(o, escape_entities()[3]));
            assert(!starts_with_spec(o, escape_entities()[4]));
            assert(!starts_with_spec(o, escape_entities()[5]));
            assert(html_unescape_spec(o) =~= seq![c] + s.drop_first());
        }
        assert(seq![c] + s.drop_first() =~= s);
    }
}

/// Different texts escape differently.
pub proof fn lemma_escape_injective(s: Seq<char>, t: Seq<char>)
    requires
        html_escape_spec(s) == html_escape_spec(t),
    ensures
        s == t,
{
    lemma_escape_decodes(s);
    lemma_escape_decodes(t);
}

/// One of the references of `escape_entities` begins at position `i` of `o`.
pub open spec fn entity_at(o: Seq<char>, i: int) -> bool {
    exists|k: int| 0 <= k < 6 && matches_at(o, #[trigger] escape_entities()[k], i)
}

/// Every `&` in escaped text begins one of the references.
pub proof fn lemma_escaped_ampersands(s: Seq<char>)
    ensures
        forall|i: int|
            0 <= i < html_escape_spec(s).len() && html_escape_spec(s)[i] == '&' ==> entity_at(
                html_escape_spec(s),
                i,
            ),
    decreases s.len(),
{
    if s.len() > 0 {
        let a = html_escape_spec(s.drop_last());
        let c = s.last();
        let b = escape_char(c);
        let o = a + b;
        lemma_escaped_ampersands(s.drop_last());
        lemma_escape_char_entities(c);
        assert(o == html_escape_spec(s));
        assert forall|i: int| 0 <= i < o.len() && o[i] == '&' implies entity_at(o, i) by {
            if i < a.len() {
                assert(o[i] == a[i]);
                assert(entity_at(a, i));
                let k = choose|k: int| 0 <= k < 6 && matches_at(a, #[trigger] escape_entities()[k], i);
                let e = escape_entities()[k];
                assert(o.subrange(i, i + e.len()) =~= a.subrange(i, i + e.len()));
                assert(matches_at(o, escape_entities()[k], i));
            } else {
                assert(o[i] == b[i - a.len()]);
                assert(is_escaped_char(c));
                assert(i == a.len());
                assert(o.subrange(i, i + b.len()) =~= b);
                if c == '&' {
                    assert(matches_at(o, escape_entities()[0], i));
                } else if c == '<' {
                    assert(matches_at(o, escape_entities()[1], i));
                } else if c == '>' {
                    assert(matches_at(o, escape_entities()[2], i));
                } else if c == '"' {
                    assert(matches_at(o, escape_entities()[3], i));
                } else if c == '\'' {
                    assert(matches_at(o, escape_entities()[4], i));
                } else {
                    assert(matches_at(o, escape_entities()[5], i));
                }
            }
        }
    }
}

/// Escaping never shortens a text, leaves it unchanged exactly when it has no
/// character to escape, and otherwise makes it longer.
pub proof fn lemma_escape_identity(s: Seq<char>)
    ensures
        html_escape_spec(s).len() >= s.len(),
        (html_escape_spec(s) == s) <==> (forall|i: int| 0 <= i < s.len() ==> !is_escaped_char(#[trigger] s[i])),
        (exists|i: int| 0 <= i < s.len() && is_escaped_char(#[trigger] s[i])) ==> html_escape_spec(s).len() > s.len(),
    decreases s.len(),
{
    if s.len() > 0 {
        let p = s.drop_last();
        lemma_escape_identity(p);
        lemma_escape_char_entities(s.last());
        let c = s.last();
        assert(escape_char(c).len() >= 1);
        assert(is_escaped_char(c) ==> escape_char(c).len() > 1);
        assert(html_escape_spec(s) == html_escape_spec(p) + escape_char(c));
        if exists|i: int| 0 <= i < s.len() && is_escaped_char(#[trigger] s[i]) {
            let i = choose|i: int| 0 <= i < s.len() && is_escaped_char(#[trigger] s[i]);
            if i < p.len() {
                assert(is_escaped_char(p[i]));
            } else {
                assert(s[i] == s.last());
            }
            assert(html_escape_spec(s).len() > s.len());
            assert(html_escape_spec(s) != s);
        } else {
            lemma_escape_plain_text(s);
        }
    } else {
        assert(s =~= Seq::<char>::empty());
        assert(html_escape_spec(s) =~= Seq::<char>::empty());
    }
}

// ---------------------------------------------------------------------------
// Pages
// ---------------------------------------------------------------------------

/// A complete HTML document with `title` and `body`, the styles, and the
/// client-side script for inline editing, reordering and deleting.
pub open spec fn page_spec(title: Seq<char>, body: Seq<char>) -> Seq<char> {
    "<!DOCTYPE html>\n<html lang=\"en\">"@ + PAGE_HEAD@ + "<title>"@ + title + "</title>"@
        + "\n<style>"@ + STYLES@ + "</style>\n</head>\n"@ + "<body>\n"@ + body + "\n<script>"@
        + PAGE_SCRIPT@ + "</script>\n"@ + "</body>\n</html>\n"@
}

/// Wraps page content in a complete HTML document, including the client-side
/// script for inline editing and delete confirmation.
pub fn wrap_html(title: &str, body: &str) -> (r: String)
    ensures
        r@ == page_spec(title@, body@),
{
    let mut out = String::new();
    out.append("<!DOCTYPE html>\n<html lang=\"en\">");
    out.append(PAGE_HEAD);
    out.append("<title>");
    out.append(title);
    out.append("</title>");
    out.append("\n<style>");
    out.append(STYLES);
    out.append("</style>\n</head>\n");
    out.append("<body>\n");
    out.append(body);
    out.append("\n<script>");
    out.append(PAGE_SCRIPT);
    out.append("</script>\n");
    out.append("</body>\n</html>\n");
    out
}

/// The body of the entry form page: the form, posting to `/entries`, with the
/// date field holding `today`, escaped.
pub open spec fn form_body_spec(today: Seq<char>) -> Seq<char> {
    FORM_HEADING@ + "action=\"/entries\""@ + FORM_DATE_INPUT@ + "value=\""@ + html_escape_spec(today)
        + "\""@ + FORM_REST@
}

/// The entry form page: its title holds the display name, and the date field
/// holds `today`, escaped.
pub open spec fn new_form_spec(today: Seq<char>, display_name: Seq<char>) -> Seq<char> {
    page_spec(NEW_FORM_TITLE@ + display_name, form_body_spec(today))
}

/// Renders the form for a new entry, with the date field pre-filled.
pub fn render_new_form(today_str: &str, display_name: &str) -> (r: String)
    ensures
        r@ == new_form_spec(today_str@, display_name@),
{
    let escaped_date = html_escape(today_str);
    let mut body = String::new();
    body.append(FORM_HEADING);
    body.append("action=\"/entries\"");
    body.append(FORM_DATE_INPUT);
    body.append("value=\"");
    body.append(escaped_date.as_str());
    body.append("\"");
    body.append(FORM_REST);
    let mut title = String::new();
    title.append(NEW_FORM_TITLE);
    title.append(display_name);
    wrap_html(title.as_str(), body.as_str())
}

/// Every page begins with the doctype and `<html lang="en">`, holds its title
/// verbatim between `<title>` and `</title>` and its body verbatim between
/// `<body>` and the script, and ends by closing the body and the document.
pub proof fn lemma_page_frame(title: Seq<char>, body: Seq<char>)
    ensures
        starts_with_spec(page_spec(title, body), "<!DOCTYPE html>\n<html lang=\"en\">"@),
        contains_seq(page_spec(title, body), "<title>"@ + title + "</title>"@),
        contains_seq(page_spec(title, body), "<body>\n"@ + body + "\n<script>"@),
        ends_with_spec(page_spec(title, body), "</body>\n</html>\n"@),
{
    let page = page_spec(title, body);
    let doc = "<!DOCTYPE html>\n<html lang=\"en\">"@;
    let head = PAGE_HEAD@;
    let t = "<title>"@ + title + "</title>"@;
    let style = "\n<style>"@ + STYLES@ + "</style>\n</head>\n"@;
    let b = "<body>\n"@ + body + "\n<script>"@;
    let tail = PAGE_SCRIPT@ + "</script>\n"@;
    let end = "</body>\n</html>\n"@;
    assert(page =~= doc + (head + t + style + b + tail + end));
    assert(page.take(doc.len() as int) =~= doc);
    assert(page =~= (doc + head) + t + (style + b + tail + end));
    lemma_contains_middle(doc + head, t, style + b + tail + end);
    assert(page =~= (doc + head + t + style) + b + (tail + end));
    lemma_contains_middle(doc + head + t + style, b, tail + end);
    assert(page =~= (doc + head + t + style + b + tail) + end);
    assert(page.skip(page.len() - end.len()) =~= end);
}

/// The entry form page is the page frame around the form, titled with the
/// display name; the form depends on the date alone, posts to `/entries` and
/// holds the escaped date as the value of its date field.
pub proof fn lemma_new_form_page(today: Seq<char>, display_name: Seq<char>)
    ensures
        new_form_spec(today, display_name) == page_spec(
            "New Entry — "@ + display_name,
            form_body_spec(today),
        ),
        contains_seq(form_body_spec(today), "action=\"/entries\""@),
        contains_seq(form_body_spec(today), "value=\""@ + html_escape_spec(today) + "\""@),
        contains_seq(
            new_form_spec(today, display_name),
            "<title>"@ + ("New Entry — "@ + display_name) + "</title>"@,
        ),
{
    let body = form_body_spec(today);
    let v = "value=\""@ + html_escape_spec(today) + "\""@;
    assert(body =~= FORM_HEADING@ + "action=\"/entries\""@ + (FORM_DATE_INPUT@ + v + FORM_REST@));
    lemma_contains_middle(FORM_HEADING@, "action=\"/entries\""@, FORM_DATE_INPUT@ + v + FORM_REST@);
    assert(body =~= (FORM_HEADING@ + "action=\"/entries\""@ + FORM_DATE_INPUT@) + v + FORM_REST@);
    lemma_contains_middle(FORM_HEADING@ + "action=\"/entries\""@ + FORM_DATE_INPUT@, v, FORM_REST@);
    lemma_page_frame("New Entry — "@ + display_name, body);
}

// ---------------------------------------------------------------------------
// Markdown items
// ---------------------------------------------------------------------------

/// The HTML that comrak's `markdown_to_html` renders for `text` with default
/// options and the strikethrough, autolink and shortcode extensions set as
/// given.
pub uninterp spec fn markdown_html(text: Seq<char>, strikethrough: bool, autolink: bool, shortcodes: bool) -> Seq<char>;

/// Calls comrak's `markdown_to_html` on `text` with `Options::default()` and the
/// three extensions set as given (raw HTML stays off, as by default).
/// Trusted: the result is `markdown_html` of the arguments.
#[verifier::external_body]
fn comrak_markdown_to_html(text: &str, strikethrough: bool, autolink: bool, shortcodes: bool) -> (r: String)
    ensures
        r@ == markdown_html(text@, strikethrough, autolink, shortcodes),
{
    let mut options = Options::default();
    options.extension.strikethrough = strikethrough;
    options.extension.autolink = autolink;
    options.extension.shortcodes = shortcodes;
    markdown_to_html(text, &options)
}

/// `<p>`.
pub open spec fn p_open() -> Seq<char> {
    seq!['<', 'p', '>']
}

/// `</p>`.
pub open spec fn p_close() -> Seq<char> {
    seq!['<', '/', 'p', '>']
}

/// Rendered HTML with its first `<p>...</p>` wrapper removed, so that the first
/// line sits inline: the HTML is trimmed; when it begins with `<p>` and a `</p>`
/// follows, the paragraph's content is kept, followed by a newline and the
/// rest (leading whitespace removed) if there is any rest.
pub open spec fn unwrap_paragraph_spec(html: Seq<char>) -> Seq<char> {
    let t = trim_spec(html);
    if starts_with_spec(t, p_open()) {
        let rest = t.skip(3);
        match find_spec(rest, p_close()) {
            Some(end) => {
                let inner = rest.take(end);
                let after = trim_start_spec(rest.skip(end + 4));
                if after.len() == 0 {
                    inner
                } else {
                    inner + seq!['\n'] + after
                }
            },
            None => t,
        }
    } else {
        t
    }
}

/// Removes the leading `<p>...</p>` wrapper from rendered HTML (see
/// `unwrap_paragraph_spec`).
pub fn unwrap_first_paragraph(html: &str) -> (r: String)
    ensures
        r@ == unwrap_paragraph_spec(html@),
{
    let chars = chars_of(html);
    let t = trim_chars(&chars);
    let open = vec!['<', 'p', '>'];
    assert(open@ == p_open());
    if !starts_with(&t, &open) {
        return crate::text::string_of(&t);
    }
    let rest = sub_chars(&t, 3, t.len());
    assert(rest@ == t@.skip(3));
    let close = vec!['<', '/', 'p', '>'];
    assert(close@ == p_close());
    match find(&rest, &close) {
        Some(end) => {
            proof {
                let e = end as int;
                assert(crate::text::matches_at(rest@, p_close(), e)) by {
                    lemma_find_matches(rest@, p_close(), 0);
                }
            }
            let inner = sub_chars(&rest, 0, end);
            let tail = sub_chars(&rest, end + 4, rest.len());
            let j = trim_start_len(&tail);
            let after = sub_chars(&tail, j, tail.len());
            assert(inner@ == rest@.take(end as int));
            assert(tail@ == rest@.skip(end + 4));
            assert(after@ == tail@.skip(j as int));
            let mut out = crate::text::string_of(&inner);
            if after.len() > 0 {
                let nl = vec!['\n'];
                push_chars(&mut out, &nl);
                push_chars(&mut out, &after);
                assert(nl@ =~= seq!['\n']);
            }
            out
        },
        None => crate::text::string_of(&t),
    }
}

/// What `find_from` finds is a match.
proof fn lemma_find_matches(s: Seq<char>, p: Seq<char>, i: int)
    ensures
        find_from_result_matches(s, p, i),
    decreases s.len() + 1 - i,
{
    if !(i < 0 || i + p.len() > s.len()) && !crate::text::matches_at(s, p, i) {
        lemma_find_matches(s, p, i + 1);
    }
}

/// `find_from(s, p, i)`, when it finds something, finds a match.
pub open spec fn find_from_result_matches(s: Seq<char>, p: Seq<char>, i: int) -> bool {
    match crate::text::find_from(s, p, i) {
        Some(k) => crate::text::matches_at(s, p, k),
        None => true,
    }
}

/// The inline HTML of a markdown item: comrak's GitHub-flavoured rendering
/// (strikethrough, autolinks, emoji shortcodes) without its first paragraph
/// wrapper.
pub open spec fn render_markdown_spec(text: Seq<char>) -> Seq<char> {
    unwrap_paragraph_spec(markdown_html(text, true, true, true))
}

/// Renders a markdown string as inline HTML using GitHub Flavored Markdown.
///
/// Supports links, bold, italic, strikethrough, inline code, autolinks,
/// and emoji shortcodes (e.g. `:heart:`).
pub fn render_markdown(s: &str) -> (r: String)
    ensures
        r@ == render_markdown_spec(s@),
{
    let html = comrak_markdown_to_html(s, true, true, true);
    unwrap_first_paragraph(html.as_str())
}

// ---------------------------------------------------------------------------
// Worklog from rows
// ---------------------------------------------------------------------------

/// Converts entry rows (newest date first) into a `WorkLog` grouped by ISO year
/// and week, with days newest first within each week (the order of the index
/// page).
pub fn entries_to_worklog(entries: Vec<EntryRow>) -> (r: WorkLog)
    ensures
        worklog_of_rows(r@, rows_view(entries@), true),
{
    worklog_from_rows(&entries, true)
}

// ---------------------------------------------------------------------------
// Index page
// ---------------------------------------------------------------------------

/// The list item of an entry: draggable, with its id, its escaped raw text (for
/// inline editing), its rendered markdown, and its delete action.
pub open spec fn item_html(id: i64, text: Seq<char>) -> Seq<char> {
    ITEM_OPEN@ + int_text(id as int) + ITEM_TEXT_OPEN@ + int_text(id as int) + ITEM_ORIGINAL@
        + html_escape_spec(text) + ITEM_RENDERED@ + render_markdown_spec(text) + ITEM_ACTIONS@
        + int_text(id as int) + ITEM_FORM_ID@ + int_text(id as int) + ITEM_FORM_ACTION@ + int_text(
        id as int,
    ) + ITEM_CLOSE@
}

/// The list items of the rows at `pos`, in order.
pub open spec fn items_html(rows: Seq<EntryView>, pos: Seq<usize>) -> Seq<char>
    decreases pos.len(),
{
    if pos.len() == 0 {
        Seq::empty()
    } else {
        items_html(rows, pos.drop_last()) + item_html(
            rows[pos.last() as int].id,
            rows[pos.last() as int].item_text,
        )
    }
}

/// A day of the index page: its date heading and the list of its entries.
pub open spec fn day_html(rows: Seq<EntryView>, d: Date) -> Seq<char> {
    "<h3>"@ + short_date_text(d@) + "</h3>"@ + (if rows_on(rows, d).len() == 0 {
        NO_ITEMS@
    } else {
        "<ul>"@ + items_html(rows, rows_on(rows, d)) + "</ul>"@
    })
}

/// Some days of the index page, in order.
pub open spec fn days_html(rows: Seq<EntryView>, dates: Seq<Date>) -> Seq<char>
    decreases dates.len(),
{
    if dates.len() == 0 {
        Seq::empty()
    } else {
        days_html(rows, dates.drop_last()) + day_html(rows, dates.last())
    }
}

/// A week of the index page: its heading (`Week N, YYYY`) and its days, in the
/// order in which they appear among the rows.
pub open spec fn week_html(rows: Seq<EntryView>, k: WeekKey) -> Seq<char> {
    week_heading(k) + days_html(rows, week_dates(rows, k))
}

/// The heading of ISO week `k`: `Week N, YYYY`.
pub open spec fn week_heading(k: WeekKey) -> Seq<char> {
    "<h2>Week "@ + decimal(k.0 as nat) + ", "@ + int_text(k.1 as int) + "</h2>"@
}

/// Some weeks of the index page, in order.
pub open spec fn weeks_html(rows: Seq<EntryView>, keys: Seq<WeekKey>) -> Seq<char>
    decreases keys.len(),
{
    if keys.len() == 0 {
        Seq::empty()
    } else {
        weeks_html(rows, keys.drop_last()) + week_html(rows, keys.last())
    }
}

/// The body of the index page: the escaped display name, the buttons, a note
/// when there are no entries, and the weeks in the order of their first row.
pub open spec fn index_body_spec(rows: Seq<EntryView>, display_name: Seq<char>) -> Seq<char> {
    "<h1>"@ + html_escape_spec(display_name) + "</h1>"@ + INDEX_BUTTONS@ + (if week_keys(rows).len()
        == 0 {
        NO_ENTRIES@
    } else {
        Seq::empty()
    }) + weeks_html(rows, week_keys(rows))
}

/// The index page.
pub open spec fn index_spec(rows: Seq<EntryView>, display_name: Seq<char>) -> Seq<char> {
    page_spec(display_name, index_body_spec(rows, display_name))
}

/// Appends the list item of `row`.
fn push_item_html(out: &mut String, row: &EntryRow)
    ensures
        final(out)@ == old(out)@ + item_html(row.id, row.item_text@),
{
    let id = int_to_chars(row.id);
    out.append(ITEM_OPEN);
    push_chars(out, &id);
    out.append(ITEM_TEXT_OPEN);
    push_chars(out, &id);
    out.append(ITEM_ORIGINAL);
    let raw = chars_of(row.item_text.as_str());
    push_escaped(out, &raw);
    out.append(ITEM_RENDERED);
    let rendered = render_markdown(row.item_text.as_str());
    out.append(rendered.as_str());
    out.append(ITEM_ACTIONS);
    push_chars(out, &id);
    out.append(ITEM_FORM_ID);
    push_chars(out, &id);
    out.append(ITEM_FORM_ACTION);
    push_chars(out, &id);
    out.append(ITEM_CLOSE);
}

/// Appends the list items of the rows at `pos`.
fn push_items_html(out: &mut String, entries: &[EntryRow], pos: &Vec<usize>)
    requires
        forall|t: int| 0 <= t < pos@.len() ==> (#[trigger] pos@[t]) < entries@.len(),
    ensures
        final(out)@ == old(out)@ + items_html(rows_view(entries@), pos@),
{
    let ghost rv = rows_view(entries@);
    let mut q: usize = 0;
    assert(pos@.take(0) =~= Seq::<usize>::empty());
    while q < pos.len()
        invariant
            rv == rows_view(entries@),
            forall|t: int| 0 <= t < pos@.len() ==> (#[trigger] pos@[t]) < entries@.len(),
            q <= pos@.len(),
            out@ == old(out)@ + items_html(rv, pos@.take(q as int)),
        decreases pos@.len() - q,
    {
        let row = &entries[pos[q]];
        assert(row@ == rv[pos@[q as int] as int]);
        push_item_html(out, row);
        assert(pos@.take(q + 1).drop_last() =~= pos@.take(q as int));
        q = q + 1;
    }
    assert(pos@.take(pos@.len() as int) =~= pos@);
}

/// Appends a day of the index page.
fn push_day_html(out: &mut String, entries: &[EntryRow], d: &DayGroup)
    requires
        d.rows@ == rows_on(rows_view(entries@), d.date),
    ensures
        final(out)@ == old(out)@ + day_html(rows_view(entries@), d.date),
{
    let _n = entries.len();
    proof {
        crate::group::lemma_rows_on_valid(rows_view(entries@), d.date);
    }
    out.append("<h3>");
    let date_text = d.date.short_text();
    out.append(date_text.as_str());
    out.append("</h3>");
    if d.rows.len() == 0 {
        out.append(NO_ITEMS);
    } else {
        out.append("<ul>");
        push_items_html(out, entries, &d.rows);
        out.append("</ul>");
    }
}

/// Appends a week of the index page.
fn push_week_html(out: &mut String, entries: &[EntryRow], g: &WeekGroup, k: Ghost<WeekKey>)
    requires
        week_group_matches(*g, rows_view(entries@), k@),
    ensures
        final(out)@ == old(out)@ + week_html(rows_view(entries@), k@),
{
    let ghost rv = rows_view(entries@);
    out.append("<h2>Week ");
    let mut num: Vec<char> = Vec::new();
    push_decimal(&mut num, g.week_number as u64);
    push_chars(out, &num);
    out.append(", ");
    let year = int_to_chars(g.iso_year as i64);
    push_chars(out, &year);
    out.append("</h2>");
    let ghost days_start = out@;
    let ghost dates = week_dates(rv, k@);
    let mut l: usize = 0;
    assert(dates.take(0) =~= Seq::<Date>::empty());
    while l < g.days.len()
        invariant
            rv == rows_view(entries@),
            week_group_matches(*g, rv, k@),
            dates == week_dates(rv, k@),
            l <= g.days@.len(),
            out@ == days_start + days_html(rv, dates.take(l as int)),
        decreases g.days@.len() - l,
    {
        let d = &g.days[l];
        assert(day_group_matches(*d, rv, dates[l as int]));
        push_day_html(out, entries, d);
        assert(dates.take(l + 1).drop_last() =~= dates.take(l as int));
        l = l + 1;
    }
    assert(dates.take(dates.len() as int) =~= dates);
}

/// Renders the index page: entries grouped by ISO week and by day (in the order
/// in which they come), each entry with its id for editing, reordering and
/// deleting, its raw text escaped and its markdown rendered.
pub fn render_index(entries: &[EntryRow], display_name: &str) -> (r: String)
    ensures
        r@ == index_spec(rows_view(entries@), display_name@),
{
    let ghost rv = rows_view(entries@);
    let groups = group_rows(entries);
    let mut body = String::new();
    body.append("<h1>");
    let name_chars = chars_of(display_name);
    push_escaped(&mut body, &name_chars);
    body.append("</h1>");
    body.append(INDEX_BUTTONS);
    if groups.len() == 0 {
        body.append(NO_ENTRIES);
    }
    let ghost head = body@;
    let ghost keys = week_keys(rv);
    let mut j: usize = 0;
    assert(keys.take(0) =~= Seq::<WeekKey>::empty());
    while j < groups.len()
        invariant
            rv == rows_view(entries@),
            keys == week_keys(rv),
            groups_match(groups@, rv),
            j <= groups@.len(),
            body@ == head + weeks_html(rv, keys.take(j as int)),
        decreases groups@.len() - j,
    {
        let g = &groups[j];
        assert(week_group_matches(*g, rv, keys[j as int]));
        push_week_html(&mut body, entries, g, Ghost(keys[j as int]));
        assert(keys.take(j + 1).drop_last() =~= keys.take(j as int));
        j = j + 1;
    }
    assert(keys.take(keys.len() as int) =~= keys);
    wrap_html(display_name, body.as_str())
}

// ---------------------------------------------------------------------------
// New entries from the form
// ---------------------------------------------------------------------------

/// What the entry form asks to store: nothing when the items field is blank;
/// otherwise the trimmed text, dated by the date field when it holds a date
/// (`Mar 9, 2026`), else `today`.
pub open spec fn form_entry_spec(date_field: Seq<char>, items_field: Seq<char>, today: Date) -> Option<(Date, Seq<char>)> {
    if trim_spec(items_field).len() == 0 {
        None
    } else {
        match crate::date::form_date_spec(date_field) {
            Some(t) => Some((crate::date::date_of(t), trim_spec(items_field))),
            None => Some((today, trim_spec(items_field))),
        }
    }
}

/// The entry that the new-entry form asks to store (see `form_entry_spec`).
pub fn entry_from_form(date_field: &str, items_field: &str, today: Date) -> (r: Option<(Date, String)>)
    ensures
        match form_entry_spec(date_field@, items_field@, today) {
            None => r is None,
            Some((d, t)) => r matches Some((rd, rt)) && rd == d && rt@ == t,
        },
        r is None <==> trim_spec(items_field@).len() == 0,
        r matches Some((_, t)) ==> t@ == trim_spec(items_field@),
        r matches Some((d, _)) ==> match crate::date::form_date_spec(date_field@) {
            Some(ymd) => d@ == ymd,
            None => d == today,
        },
{
    let items = chars_of(items_field);
    let item = trim_chars(&items);
    if item.len() == 0 {
        return None;
    }
    let date = match crate::date::parse_form_date(date_field) {
        Some(d) => {
            proof {
                assert(crate::date::date_of(d@)@ == d@);
            }
            d
        },
        None => today,
    };
    Some((date, crate::text::string_of(&item)))
}


// ---------------------------------------------------------------------------
// What the index page shows
// ---------------------------------------------------------------------------

/// The list items of the rows at `pos` hold the item of each of those rows.
proof fn lemma_items_html_contains(rows: Seq<EntryView>, pos: Seq<usize>, t: int)
    requires
        0 <= t < pos.len(),
    ensures
        contains_seq(items_html(rows, pos), item_html(rows[pos[t] as int].id, rows[pos[t] as int].item_text)),
    decreases pos.len(),
{
    let a = items_html(rows, pos.drop_last());
    let b = item_html(rows[pos.last() as int].id, rows[pos.last() as int].item_text);
    lemma_contains_parts(a, b);
    if t < pos.len() - 1 {
        lemma_items_html_contains(rows, pos.drop_last(), t);
        assert(pos.drop_last()[t] == pos[t]);
        lemma_contains_trans(a + b, a, item_html(rows[pos[t] as int].id, rows[pos[t] as int].item_text));
    }
}

/// Some days of the index page hold each of those days.
proof fn lemma_days_html_contains(rows: Seq<EntryView>, dates: Seq<Date>, l: int)
    requires
        0 <= l < dates.len(),
    ensures
        contains_seq(days_html(rows, dates), day_html(rows, dates[l])),
    decreases dates.len(),
{
    let a = days_html(rows, dates.drop_last());
    let b = day_html(rows, dates.last());
    lemma_contains_parts(a, b);
    if l < dates.len() - 1 {
        lemma_days_html_contains(rows, dates.drop_last(), l);
        assert(dates.drop_last()[l] == dates[l]);
        lemma_contains_trans(a + b, a, day_html(rows, dates[l]));
    }
}

/// Some weeks of the index page hold each of those weeks.
proof fn lemma_weeks_html_contains(rows: Seq<EntryView>, keys: Seq<WeekKey>, j: int)
    requires
        0 <= j < keys.len(),
    ensures
        contains_seq(weeks_html(rows, keys), week_html(rows, keys[j])),
    decreases keys.len(),
{
    let a = weeks_html(rows, keys.drop_last());
    let b = week_html(rows, keys.last());
    lemma_contains_parts(a, b);
    if j < keys.len() - 1 {
        lemma_weeks_html_contains(rows, keys.drop_last(), j);
        assert(keys.drop_last()[j] == keys[j]);
        lemma_contains_trans(a + b, a, week_html(rows, keys[j]));
    }
}

/// The index page holds its body.
proof fn lemma_index_holds_body(rows: Seq<EntryView>, display_name: Seq<char>)
    ensures
        contains_seq(index_spec(rows, display_name), index_body_spec(rows, display_name)),
{
    let body = index_body_spec(rows, display_name);
    lemma_page_frame(display_name, body);
    lemma_contains_middle("<body>\n"@, body, "\n<script>"@);
    lemma_contains_trans(index_spec(rows, display_name), "<body>\n"@ + body + "\n<script>"@, body);
}

/// The index page shows the escaped display name as its heading and, for every
/// row, the heading of the row's ISO week (`Week N, YYYY`) and the row's list
/// item: draggable, with its id, its escaped raw text and its rendered
/// markdown. The page lists one week heading per ISO week of the rows
/// (`week_keys`, without repeats), and under it one list item per row, in the
/// order `grouped_positions`, which holds every row exactly once
/// (`lemma_grouped_positions_exact`).
pub proof fn lemma_index_shows_rows(rows: Seq<EntryView>, display_name: Seq<char>)
    requires
        rows.len() <= usize::MAX,
    ensures
        contains_seq(index_spec(rows, display_name), "<h1>"@ + html_escape_spec(display_name) + "</h1>"@),
        forall|i: int|
            0 <= i < rows.len() ==> contains_seq(
                index_spec(rows, display_name),
                item_html((#[trigger] rows[i]).id, rows[i].item_text),
            ) && contains_seq(index_spec(rows, display_name), week_heading(key_of(rows[i].date))),
{
    let page = index_spec(rows, display_name);
    let body = index_body_spec(rows, display_name);
    let h1 = "<h1>"@ + html_escape_spec(display_name) + "</h1>"@;
    let keys = week_keys(rows);
    let note = if keys.len() == 0 { NO_ENTRIES@ } else { Seq::<char>::empty() };
    lemma_index_holds_body(rows, display_name);
    assert(body =~= h1 + (INDEX_BUTTONS@ + note + weeks_html(rows, keys)));
    lemma_contains_parts(h1, INDEX_BUTTONS@ + note + weeks_html(rows, keys));
    lemma_contains_trans(page, body, h1);
    assert(body =~= (h1 + INDEX_BUTTONS@ + note) + weeks_html(rows, keys));
    lemma_contains_parts(h1 + INDEX_BUTTONS@ + note, weeks_html(rows, keys));
    lemma_contains_trans(page, body, weeks_html(rows, keys));
    assert forall|i: int| 0 <= i < rows.len() implies contains_seq(
        page,
        item_html((#[trigger] rows[i]).id, rows[i].item_text),
    ) && contains_seq(page, week_heading(key_of(rows[i].date))) by {
        let d = rows[i].date;
        let k = key_of(d);
        crate::group::lemma_week_keys_rows(rows);
        assert(keys.contains(k));
        let j = choose|j: int| 0 <= j < keys.len() && keys[j] == k;
        lemma_weeks_html_contains(rows, keys, j);
        lemma_contains_trans(page, weeks_html(rows, keys), week_html(rows, k));
        lemma_contains_parts(week_heading(k), days_html(rows, week_dates(rows, k)));
        lemma_contains_trans(page, week_html(rows, k), week_heading(k));
        lemma_contains_trans(page, week_html(rows, k), days_html(rows, week_dates(rows, k)));
        crate::group::lemma_week_dates_rows(rows, k);
        assert(week_dates(rows, k).contains(d));
        let l = choose|l: int| 0 <= l < week_dates(rows, k).len() && week_dates(rows, k)[l] == d;
        lemma_days_html_contains(rows, week_dates(rows, k), l);
        lemma_contains_trans(page, days_html(rows, week_dates(rows, k)), day_html(rows, d));
        crate::group::lemma_rows_on_exact(rows, d);
        let on = rows_on(rows, d);
        assert(on.contains(i as usize));
        let t = choose|t: int| 0 <= t < on.len() && on[t] == i as usize;
        let items = items_html(rows, on);
        let head = "<h3>"@ + short_date_text(d@) + "</h3>"@;
        assert(day_html(rows, d) =~= head + ("<ul>"@ + items + "</ul>"@));
        lemma_contains_middle("<ul>"@, items, "</ul>"@);
        lemma_contains_parts(head, "<ul>"@ + items + "</ul>"@);
        lemma_contains_trans(day_html(rows, d), "<ul>"@ + items + "</ul>"@, items);
        lemma_contains_trans(page, day_html(rows, d), items);
        lemma_items_html_contains(rows, on, t);
        lemma_contains_trans(page, items, item_html(rows[i].id, rows[i].item_text));
    }
}


/// `x` occurs in `s`, and `y` occurs after it.
pub open spec fn in_order(s: Seq<char>, x: Seq<char>, y: Seq<char>) -> bool {
    exists|i: int, j: int| #[trigger] matches_at(s, x, i) && #[trigger] matches_at(s, y, j) && i + x.len() <= j
}

/// The list items of some rows, then of some more rows, are the list items of
/// all of them, in that order.
pub proof fn lemma_items_html_concat(rows: Seq<EntryView>, a: Seq<usize>, b: Seq<usize>)
    ensures
        items_html(rows, a + b) == items_html(rows, a) + items_html(rows, b),
    decreases b.len(),
{
    if b.len() == 0 {
        assert(a + b =~= a);
        assert(items_html(rows, a) + items_html(rows, b) =~= items_html(rows, a));
    } else {
        lemma_items_html_concat(rows, a, b.drop_last());
        assert((a + b).drop_last() =~= a + b.drop_last());
        assert((a + b).last() == b.last());
    }
}

/// The list items of one row are that row's item.
pub proof fn lemma_items_html_single(rows: Seq<EntryView>, p: usize)
    ensures
        items_html(rows, seq![p]) == item_html(rows[p as int].id, rows[p as int].item_text),
{
    assert(seq![p].drop_last() =~= Seq::<usize>::empty());
    assert(items_html(rows, seq![p].drop_last()) =~= Seq::<char>::empty());
    assert(seq![p].last() == p);
    assert(items_html(rows, seq![p]) =~= item_html(rows[p as int].id, rows[p as int].item_text));
}

/// What occurs in order in a part of `s` occurs in order in `s`.
proof fn lemma_in_order_within(s: Seq<char>, part: Seq<char>, x: Seq<char>, y: Seq<char>)
    requires
        contains_seq(s, part),
        in_order(part, x, y),
    ensures
        in_order(s, x, y),
{
    let o = choose|o: int| matches_at(s, part, o);
    let (i, j) = choose|i: int, j: int| #[trigger] matches_at(part, x, i) && #[trigger] matches_at(part, y, j) && i + x.len() <= j;
    assert(s.subrange(o + i, o + i + x.len()) =~= x) by {
        assert forall|q: int| 0 <= q < x.len() implies s.subrange(o + i, o + i + x.len())[q] == x[q] by {
            assert(s.subrange(o, o + part.len())[i + q] == part[i + q]);
            assert(part.subrange(i, i + x.len())[q] == x[q]);
        }
    }
    assert(s.subrange(o + j, o + j + y.len()) =~= y) by {
        assert forall|q: int| 0 <= q < y.len() implies s.subrange(o + j, o + j + y.len())[q] == y[q] by {
            assert(s.subrange(o, o + part.len())[j + q] == part[j + q]);
            assert(part.subrange(j, j + y.len())[q] == y[q]);
        }
    }
    assert(matches_at(s, x, o + i));
    assert(matches_at(s, y, o + j));
}

/// The index page holds the list of the rows of each day that has rows.
proof fn lemma_index_holds_day_items(rows: Seq<EntryView>, display_name: Seq<char>, d: Date)
    requires
        rows.len() <= usize::MAX,
        rows_on(rows, d).len() > 0,
    ensures
        contains_seq(index_spec(rows, display_name), items_html(rows, rows_on(rows, d))),
{
    let page = index_spec(rows, display_name);
    let body = index_body_spec(rows, display_name);
    let h1 = "<h1>"@ + html_escape_spec(display_name) + "</h1>"@;
    let keys = week_keys(rows);
    let note = if keys.len() == 0 { NO_ENTRIES@ } else { Seq::<char>::empty() };
    let on = rows_on(rows, d);
    crate::group::lemma_rows_on_exact(rows, d);
    let i = on[0] as int;
    assert(rows[i].date == d);
    lemma_index_holds_body(rows, display_name);
    assert(body =~= (h1 + INDEX_BUTTONS@ + note) + weeks_html(rows, keys));
    lemma_contains_parts(h1 + INDEX_BUTTONS@ + note, weeks_html(rows, keys));
    lemma_contains_trans(page, body, weeks_html(rows, keys));
    let k = key_of(d);
    crate::group::lemma_week_keys_rows(rows);
    assert(keys.contains(key_of(rows[i].date)));
    let j = choose|j: int| 0 <= j < keys.len() && keys[j] == k;
    lemma_weeks_html_contains(rows, keys, j);
    lemma_contains_trans(page, weeks_html(rows, keys), week_html(rows, k));
    lemma_contains_parts(week_heading(k), days_html(rows, week_dates(rows, k)));
    lemma_contains_trans(page, week_html(rows, k), days_html(rows, week_dates(rows, k)));
    crate::group::lemma_week_dates_rows(rows, k);
    assert(week_dates(rows, k).contains(rows[i].date));
    let l = choose|l: int| 0 <= l < week_dates(rows, k).len() && week_dates(rows, k)[l] == d;
    lemma_days_html_contains(rows, week_dates(rows, k), l);
    lemma_contains_trans(page, days_html(rows, week_dates(rows, k)), day_html(rows, d));
    let items = items_html(rows, on);
    let head = "<h3>"@ + short_date_text(d@) + "</h3>"@;
    assert(day_html(rows, d) =~= head + ("<ul>"@ + items + "</ul>"@));
    lemma_contains_middle("<ul>"@, items, "</ul>"@);
    lemma_contains_parts(head, "<ul>"@ + items + "</ul>"@);
    lemma_contains_trans(day_html(rows, d), "<ul>"@ + items + "</ul>"@, items);
    lemma_contains_trans(page, day_html(rows, d), items);
}

/// Within a day, the index page lists the items in the order of the rows
/// (the order in which the store lists them: by sort order): the item of an
/// earlier row of the day comes before the item of a later one.
pub proof fn lemma_index_day_order(rows: Seq<EntryView>, display_name: Seq<char>, d: Date, t1: int, t2: int)
    requires
        rows.len() <= usize::MAX,
        0 <= t1 < t2 < rows_on(rows, d).len(),
    ensures
        in_order(
            index_spec(rows, display_name),
            item_html(rows[rows_on(rows, d)[t1] as int].id, rows[rows_on(rows, d)[t1] as int].item_text),
            item_html(rows[rows_on(rows, d)[t2] as int].id, rows[rows_on(rows, d)[t2] as int].item_text),
        ),
{
    let on = rows_on(rows, d);
    let p1 = on[t1];
    let p2 = on[t2];
    let x = item_html(rows[p1 as int].id, rows[p1 as int].item_text);
    let y = item_html(rows[p2 as int].id, rows[p2 as int].item_text);
    let a = on.take(t1);
    let m = on.subrange(t1 + 1, t2);
    let c = on.skip(t2 + 1);
    assert(on =~= a + seq![p1] + m + seq![p2] + c);
    lemma_items_html_concat(rows, a + seq![p1] + m + seq![p2], c);
    lemma_items_html_concat(rows, a + seq![p1] + m, seq![p2]);
    lemma_items_html_concat(rows, a + seq![p1], m);
    lemma_items_html_concat(rows, a, seq![p1]);
    lemma_items_html_single(rows, p1);
    lemma_items_html_single(rows, p2);
    let ha = items_html(rows, a);
    let hm = items_html(rows, m);
    let hc = items_html(rows, c);
    let items = items_html(rows, on);
    assert(items == ha + x + hm + y + hc);
    let ix: int = ha.len() as int;
    let iy: int = (ha.len() + x.len() + hm.len()) as int;
    assert(items.subrange(ix, ix + x.len()) =~= x);
    assert(items.subrange(iy, iy + y.len()) =~= y);
    assert(matches_at(items, x, ix));
    assert(matches_at(items, y, iy));
    assert(in_order(items, x, y));
    lemma_index_holds_day_items(rows, display_name, d);
    lemma_in_order_within(index_spec(rows, display_name), items, x, y);
}


/// `find_from` finds the first match at or after `i`.
proof fn lemma_find_from_first(s: Seq<char>, p: Seq<char>, i: int, k: int)
    requires
        0 <= i <= k,
        matches_at(s, p, k),
        forall|q: int| i <= q < k ==> !matches_at(s, p, q),
    ensures
        crate::text::find_from(s, p, i) == Some(k),
    decreases k - i,
{
    if i < k {
        assert(!matches_at(s, p, i));
        lemma_find_from_first(s, p, i + 1, k);
    }
}

/// Unwrapping removes only the first paragraph's tags: when the trimmed HTML
/// is `<p>`, a paragraph `x` holding no `</p>`, `</p>`, and a rest `r`, the
/// result is `x`, followed by a newline and the rest (leading whitespace
/// removed) when there is any rest, whatever that rest begins with.
pub proof fn lemma_unwrap_keeps_rest(html: Seq<char>, x: Seq<char>, r: Seq<char>)
    requires
        trim_spec(html) == seq!['<', 'p', '>'] + x + seq!['<', '/', 'p', '>'] + r,
        !contains_seq(x, seq!['<', '/', 'p', '>']),
    ensures
        unwrap_paragraph_spec(html) == (if trim_start_spec(r).len() == 0 {
            x
        } else {
            x + seq!['\n'] + trim_start_spec(r)
        }),
{
    let close = seq!['<', '/', 'p', '>'];
    let t = trim_spec(html);
    assert(t.take(3) =~= p_open());
    let rest = t.skip(3);
    assert(rest =~= x + close + r);
    let n = x.len() as int;
    assert(rest.subrange(n, n + 4) =~= close);
    assert(matches_at(rest, close, n));
    assert forall|q: int| 0 <= q < n implies !matches_at(rest, close, q) by {
        if matches_at(rest, close, q) {
            if q + 4 <= n {
                assert(x.subrange(q, q + 4) =~= rest.subrange(q, q + 4));
                assert(matches_at(x, close, q));
                assert(contains_seq(x, close));
            } else {
                assert(rest[n] == '<');
                assert(rest.subrange(q, q + 4)[n - q] == rest[n]);
                assert(close[n - q] != '<');
            }
        }
    }
    lemma_find_from_first(rest, close, 0, n);
    assert(close == p_close());
    assert(rest.take(n) =~= x);
    assert(rest.skip(n + 4) =~= r);
}

/// HTML that does not begin with a paragraph is only trimmed.
pub proof fn lemma_unwrap_other(html: Seq<char>)
    requires
        !starts_with_spec(trim_spec(html), seq!['<', 'p', '>']),
    ensures
        unwrap_paragraph_spec(html) == trim_spec(html),
{
    assert(p_open() == seq!['<', 'p', '>']);
}

} // verus!
