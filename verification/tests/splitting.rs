//! How cells are split into events.

use anstyle::Style;
use snippet_events::events::{emit_events, emit_line, kind_of, Event, EventKind, Run, SourceRef};
use snippet_events::renderer::{Rendered, RenderedGroup, Renderer};
use snippet_events::style::{ElementStyle, Level};
use snippet_events::styled_buffer::{CellMeta, CellSource, CellTag, StyledBuffer, StyledChar};

fn point(source_id: usize, byte_start: usize, byte_end: usize) -> CellSource {
    CellSource {
        source_id,
        line: 5,
        byte_start,
        byte_end,
        display_start: byte_start + 100,
        display_end: byte_end + 100,
    }
}

fn quoted(ch: char, source: CellSource) -> StyledChar {
    StyledChar::with_meta(ch, ElementStyle::Quotation, CellMeta::source(source))
}

fn tagged(ch: char, style: ElementStyle, tag: CellTag) -> StyledChar {
    StyledChar::with_meta(ch, style, CellMeta { source: None, tag })
}

fn group() -> RenderedGroup {
    let mut buffer = StyledBuffer::new();
    buffer.intern_source(Some("a.rs"));
    buffer.intern_source(None);
    RenderedGroup { level: Level::Error, buffer }
}

fn split(cells: &[StyledChar]) -> Vec<Event> {
    let mut events = Vec::new();
    emit_line(&Renderer::plain(), &group(), cells, 7, &mut events);
    events
}

fn ranges(events: &[Event]) -> Vec<(usize, &str, Option<std::ops::Range<usize>>)> {
    events
        .iter()
        .map(|e| (e.column, e.text.as_str(), e.source.as_ref().map(|s| s.byte_range.clone())))
        .collect()
}

#[test]
fn empty_line_has_a_placeholder() {
    assert_eq!(
        split(&[]),
        [Event {
            line: 7,
            column: 0,
            text: String::new(),
            style: Style::new(),
            kind: EventKind::Text,
            source: None,
        }],
    );
}

#[test]
fn tags_decide_kinds_first() {
    for style in [ElementStyle::Addition, ElementStyle::Quotation, ElementStyle::LabelPrimary] {
        assert_eq!(kind_of(&tagged('x', style, CellTag::Fold)), EventKind::Fold);
        assert_eq!(
            kind_of(&tagged('x', style, CellTag::Sidebar { depth: 3 })),
            EventKind::Sidebar { depth: 3 },
        );
        assert_eq!(kind_of(&tagged('x', style, CellTag::LineNumber)), EventKind::LineNumber);
        assert_eq!(kind_of(&tagged('x', style, CellTag::Separator)), EventKind::Separator);
    }
}

#[test]
fn styles_decide_kinds_of_untagged_cells() {
    let kinds = [
        (ElementStyle::Addition, EventKind::Addition),
        (ElementStyle::Removal, EventKind::Removal),
        (ElementStyle::UnderlinePrimary, EventKind::Underline),
        (ElementStyle::UnderlineSecondary, EventKind::Underline),
        (ElementStyle::LabelPrimary, EventKind::Label),
        (ElementStyle::LabelSecondary, EventKind::Label),
        (ElementStyle::Level(Level::Note), EventKind::Title),
        (ElementStyle::MainHeaderMsg, EventKind::Title),
        (ElementStyle::HeaderMsg, EventKind::Title),
        (ElementStyle::LineAndColumn, EventKind::Origin),
        (ElementStyle::LineNumber, EventKind::Separator),
        (ElementStyle::Quotation, EventKind::Text),
        (ElementStyle::NoStyle, EventKind::Text),
    ];
    for (style, kind) in kinds {
        assert_eq!(kind_of(&StyledChar::new('x', style)), kind);
        assert_eq!(kind_of(&tagged('x', style, CellTag::Suggestion)), kind);
        let source = StyledChar::with_meta('x', style, CellMeta::source(point(0, 1, 2)));
        let expected = match kind {
            EventKind::Addition | EventKind::Removal => kind,
            _ => EventKind::Source,
        };
        assert_eq!(kind_of(&source), expected);
    }
}

#[test]
fn runs_end_where_kind_or_style_changes() {
    let events = split(&[
        StyledChar::new('a', ElementStyle::NoStyle),
        StyledChar::new('b', ElementStyle::NoStyle),
        StyledChar::new('c', ElementStyle::Quotation),
        tagged('d', ElementStyle::Quotation, CellTag::Sidebar { depth: 0 }),
        tagged('e', ElementStyle::Quotation, CellTag::Sidebar { depth: 1 }),
        tagged('f', ElementStyle::Quotation, CellTag::Sidebar { depth: 1 }),
    ]);
    assert_eq!(
        ranges(&events),
        [(0, "ab", None), (2, "c", None), (3, "d", None), (4, "ef", None)],
    );
}

#[test]
fn runs_end_where_the_source_skips() {
    let events = split(&[
        quoted('a', point(0, 0, 1)),
        quoted('b', point(0, 1, 2)),
        // One byte is skipped.
        quoted('c', point(0, 3, 4)),
        // Another source.
        quoted('d', point(1, 4, 5)),
        // No source at all.
        StyledChar::new('e', ElementStyle::Quotation),
    ]);
    assert_eq!(
        ranges(&events),
        [
            (0, "ab", Some(0..2)),
            (2, "c", Some(3..4)),
            (3, "d", Some(4..5)),
            (4, "e", None),
        ],
    );
}

#[test]
fn glyphs_of_one_byte_share_a_run() {
    let events = split(&[
        quoted(' ', point(0, 4, 5)),
        quoted(' ', point(0, 4, 5)),
        quoted('x', point(0, 5, 8)),
        quoted('y', point(0, 6, 7)),
    ]);
    assert_eq!(ranges(&events), [(0, "  xy", Some(4..8))]);
    // Before the start of the range, a new run begins.
    let events = split(&[quoted('x', point(0, 4, 5)), quoted('y', point(0, 3, 4))]);
    assert_eq!(ranges(&events), [(0, "x", Some(4..5)), (1, "y", Some(3..4))]);
}

#[test]
fn sources_are_resolved_in_the_buffer() {
    let path = |id| {
        let events = split(&[quoted('x', point(id, 4, 5))]);
        events[0].source.clone()
    };
    let source = SourceRef {
        path: Some("a.rs".to_owned()),
        line: 5,
        byte_range: 4..5,
        column_range: 104..105,
    };
    assert_eq!(path(0), Some(source.clone()));
    assert_eq!(path(1), Some(SourceRef { path: None, ..source.clone() }));
    assert_eq!(path(2), Some(SourceRef { path: None, ..source }));
}

#[test]
fn decoration_never_has_a_source() {
    for tag in [CellTag::Fold, CellTag::LineNumber, CellTag::Separator, CellTag::Sidebar { depth: 1 }] {
        let meta = CellMeta { source: Some(point(0, 1, 2)), tag };
        let events = split(&[StyledChar::with_meta('x', ElementStyle::Quotation, meta)]);
        assert_eq!(events[0].source, None);
    }
    let addition = StyledChar::with_meta('x', ElementStyle::Addition, CellMeta::source(point(0, 1, 2)));
    assert_eq!(split(&[addition])[0].source, None);
    let removal = StyledChar::with_meta('x', ElementStyle::Removal, CellMeta::source(point(0, 1, 2)));
    assert_eq!(split(&[removal])[0].source.as_ref().unwrap().byte_range, 1..2);
    // A marker without a source has none to lose.
    assert_eq!(split(&[StyledChar::new('-', ElementStyle::Removal)])[0].source, None);
}

#[test]
fn runs_accept_what_continues_them() {
    let first = quoted('a', point(0, 4, 6));
    let mut run = Run::new(2, &first, EventKind::Source);
    assert!(run.accepts(&quoted('b', point(0, 6, 7)), EventKind::Source));
    assert!(run.accepts(&quoted('b', point(0, 4, 7)), EventKind::Source));
    assert!(!run.accepts(&quoted('b', point(0, 7, 8)), EventKind::Source));
    assert!(!run.accepts(&quoted('b', point(0, 3, 8)), EventKind::Source));
    assert!(!run.accepts(&quoted('b', point(1, 6, 7)), EventKind::Source));
    assert!(!run.accepts(&quoted('b', point(0, 6, 7)), EventKind::Text));
    assert!(!run.accepts(&StyledChar::new('b', ElementStyle::Quotation), EventKind::Source));
    assert!(!run.accepts(&StyledChar::new('b', ElementStyle::NoStyle), EventKind::Source));
    let next = quoted('b', point(0, 6, 9));
    run.push(&next, next.meta().source);
    assert!(run.accepts(&quoted('c', point(0, 9, 10)), EventKind::Source));
    let mut events = Vec::new();
    run.emit(&Renderer::plain(), &group(), 1, &mut events);
    assert_eq!(
        events,
        [Event {
            line: 1,
            column: 2,
            text: "ab".to_owned(),
            style: Style::new(),
            kind: EventKind::Source,
            source: Some(SourceRef {
                path: Some("a.rs".to_owned()),
                line: 5,
                byte_range: 4..9,
                column_range: 104..109,
            }),
        }],
    );
}

#[test]
fn events_follow_in_reading_order() {
    let mut upper = StyledBuffer::new();
    upper.puts(0, 0, "a", ElementStyle::NoStyle);
    upper.puts(0, 1, "bc", ElementStyle::HeaderMsg);
    upper.ensure_lines(1);
    let mut lower = StyledBuffer::new();
    lower.puts(0, 1, "d", ElementStyle::HeaderMsg);
    let rendered = Rendered {
        groups: vec![
            RenderedGroup { level: Level::Error, buffer: upper },
            RenderedGroup { level: Level::Note, buffer: lower },
        ],
    };
    let mut events = vec![];
    emit_events(&Renderer::plain(), &rendered, &mut events);
    let places: Vec<(usize, usize, &str)> =
        events.iter().map(|e| (e.line, e.column, e.text.as_str())).collect();
    assert_eq!(places, [(0, 0, "a"), (0, 1, "bc"), (1, 0, ""), (2, 0, " "), (2, 1, "d")]);
    assert!(events.iter().all(|e| !e.text.contains('\n')));
}

#[test]
fn sinks_keep_what_they_hold() {
    let mut events = split(&[StyledChar::new('a', ElementStyle::NoStyle)]);
    let before = events.clone();
    emit_line(
        &Renderer::plain(),
        &group(),
        &[StyledChar::new('b', ElementStyle::NoStyle)],
        8,
        &mut events,
    );
    assert_eq!(events.len(), 2);
    assert_eq!(events[0], before[0]);
    assert_eq!((events[1].line, events[1].text.as_str()), (8, "b"));
}
