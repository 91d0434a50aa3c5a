//! Events as JSON.

use anstyle::Style;
use snippet_events::events::{Event, EventKind, SourceRef};
use snippet_events::json::{event_json, events_json, json_str, kind_name, source_json};

fn source() -> SourceRef {
    SourceRef {
        path: Some("src/main.rs".to_owned()),
        line: 1,
        byte_range: 0..18,
        column_range: 10..usize::MAX,
    }
}

fn event(kind: EventKind, source: Option<SourceRef>) -> Event {
    Event { line: 3, column: 4, text: "let \"x\"".to_owned(), style: Style::new(), kind, source }
}

#[test]
fn strings_are_escaped() {
    assert_eq!(json_str(""), "\"\"");
    assert_eq!(json_str("a\"b\\c\nd\re\tf"), r#""a\"b\\c\nd\re\tf""#);
    assert_eq!(json_str("\u{0}\u{1f}\u{7f}\u{9c}é界"), "\"\\u0000\\u001f\\u007f\\u009cé界\"");
}

#[test]
fn exactly_the_control_codes_are_escaped() {
    for ch in '\u{0}'..=char::MAX {
        let escaped = json_str(&ch.to_string()).starts_with("\"\\");
        assert_eq!(escaped, ch.is_control() || ch == '"' || ch == '\\', "{ch:?}");
    }
}

/// Reads a JSON string back.
fn decode(json: &str) -> String {
    let mut out = String::new();
    let mut chars = json[1..json.len() - 1].chars();
    while let Some(ch) = chars.next() {
        if ch != '\\' {
            out.push(ch);
            continue;
        }
        match chars.next().unwrap() {
            'n' => out.push('\n'),
            'r' => out.push('\r'),
            't' => out.push('\t'),
            'u' => {
                let code: String = chars.by_ref().take(4).collect();
                out.push(char::from_u32(u32::from_str_radix(&code, 16).unwrap()).unwrap());
            }
            other => out.push(other),
        }
    }
    out
}

#[test]
fn strings_can_be_read_back() {
    let text = "a\"b\\c\nd\re\tf\u{0}\u{1b}[0m\u{85}\\u0041é界";
    assert_eq!(decode(&json_str(text)), text);
    assert!(json_str(text).chars().all(|ch| !ch.is_control()));
}

#[test]
fn kinds_have_names() {
    let names = [
        (EventKind::Title, "title"),
        (EventKind::Text, "text"),
        (EventKind::Origin, "origin"),
        (EventKind::LineNumber, "line_number"),
        (EventKind::Sidebar { depth: 2 }, "sidebar"),
        (EventKind::Source, "source"),
        (EventKind::Underline, "underline"),
        (EventKind::Label, "label"),
        (EventKind::Fold, "fold"),
        (EventKind::Addition, "addition"),
        (EventKind::Removal, "removal"),
        (EventKind::Separator, "separator"),
    ];
    for (kind, name) in names {
        assert_eq!(kind_name(kind), name);
    }
}

#[test]
fn sources_are_objects() {
    let expected = format!(
        r#"{{"path":"src/main.rs","line":1,"bytes":[0,18],"columns":[10,{}]}}"#,
        usize::MAX,
    );
    assert_eq!(source_json(&source()), expected);
    let unnamed = SourceRef { path: None, column_range: 7..9, ..source() };
    assert_eq!(source_json(&unnamed), r#"{"line":1,"bytes":[0,18],"columns":[7,9]}"#);
}

#[test]
fn events_are_objects() {
    assert_eq!(
        event_json(&event(EventKind::Label, None)),
        r#"{"line":3,"column":4,"text":"let \"x\"","kind":"label"}"#,
    );
    let unnamed = SourceRef { path: None, column_range: 7..9, ..source() };
    assert_eq!(
        event_json(&event(EventKind::Source, Some(unnamed))),
        r#"{"line":3,"column":4,"text":"let \"x\"","kind":"source","source":{"line":1,"bytes":[0,18],"columns":[7,9]}}"#,
    );
}

#[test]
fn event_lists_are_arrays() {
    assert_eq!(events_json(&[]), "[\n\n]\n");
    let one = event(EventKind::Text, None);
    let json = event_json(&one);
    assert_eq!(events_json(&[one.clone()]), format!("[\n  {json}\n]\n"));
    assert_eq!(events_json(&[one.clone(), one]), format!("[\n  {json},\n  {json}\n]\n"));
}
