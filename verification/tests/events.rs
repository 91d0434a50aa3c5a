//! Events of laid out diagnostics.

use anstyle::Style;
use snippet_events::events::{Event, EventKind};
use snippet_events::renderer::{Rendered, RenderedGroup, Renderer};
use snippet_events::style::{ElementStyle, ElementStyles, Level, Stylesheet};
use snippet_events::styled_buffer::{CellMeta, CellSource, CellTag, StyledBuffer};

/// Rebuild the plain-text output purely from events, proving no
/// characters were dropped or invented.
fn reconstruct(events: &[Event]) -> String {
    let mut out = String::new();
    let mut line = 0;
    for event in events {
        while line < event.line {
            out.push('\n');
            line += 1;
        }
        out.push_str(&event.text);
    }
    out
}

#[derive(Clone, Copy, Debug, PartialEq)]
enum DecorStyle {
    Ascii,
    Unicode,
}

/// A layout of one group that is written from top to bottom, with a gutter one
/// digit wide.
struct Layout {
    buffer: StyledBuffer,
    level: Level,
    decor: DecorStyle,
}

impl Layout {
    fn new(level: Level, decor: DecorStyle) -> Self {
        Layout { buffer: StyledBuffer::new(), level, decor }
    }

    fn pick(&self, ascii: &'static str, unicode: &'static str) -> &'static str {
        match self.decor {
            DecorStyle::Ascii => ascii,
            DecorStyle::Unicode => unicode,
        }
    }

    fn tagged(&mut self, line: usize, col: usize, text: &str, style: ElementStyle, tag: CellTag) {
        let previous = self.buffer.set_tag(tag);
        self.buffer.puts(line, col, text, style);
        self.buffer.set_tag(previous);
    }

    fn title(&mut self, message: &str) {
        let tag = match self.level {
            Level::Error => "error",
            Level::Warning => "warning",
            Level::Info => "info",
            Level::Note => "note",
            Level::Help => "help",
        };
        let line = self.buffer.num_lines();
        self.buffer.puts(line, 0, tag, ElementStyle::Level(self.level));
        self.buffer.append(line, ": ", ElementStyle::MainHeaderMsg);
        self.buffer.append(line, message, ElementStyle::MainHeaderMsg);
    }

    fn origin(&mut self, ascii: &'static str, unicode: &'static str, place: &str) {
        let line = self.buffer.num_lines();
        let arrow = self.pick(ascii, unicode);
        self.buffer.puts(line, 1, arrow, ElementStyle::LineNumber);
        self.buffer.append(line, place, ElementStyle::LineAndColumn);
    }

    fn bar(&mut self) -> usize {
        let line = self.buffer.num_lines();
        let bar = self.pick("|", "│");
        self.tagged(line, 2, bar, ElementStyle::LineNumber, CellTag::Sidebar { depth: 0 });
        line
    }

    fn numbered(&mut self, number: &str) -> usize {
        let line = self.bar();
        self.tagged(line, 0, number, ElementStyle::LineNumber, CellTag::LineNumber);
        line
    }

    /// Quotes `text`, which starts at `byte` of its source and at `display` of
    /// its line.  Tabs take four columns, wide characters two, and combining
    /// ones none.
    fn quote(&mut self, at: (usize, usize), text: &str, id: usize, from: (usize, usize, usize), style: ElementStyle) {
        let (line, mut col) = at;
        let (source_line, mut byte, mut display) = from;
        for ch in text.chars() {
            let glyphs = if ch == '\t' { "    ".to_owned() } else { ch.to_string() };
            let width = match ch {
                '\u{300}'..='\u{36f}' => 0,
                '\u{3000}'..='\u{9fff}' => 2,
                _ => 1,
            };
            for glyph in glyphs.chars() {
                let source = CellSource {
                    source_id: id,
                    line: source_line,
                    byte_start: byte,
                    byte_end: byte + ch.len_utf8(),
                    display_start: display,
                    display_end: display + width,
                };
                self.buffer.putc_meta(line, col, glyph, style, CellMeta::source(source));
                col += 1;
                display += width;
            }
            byte += ch.len_utf8();
        }
    }

    fn source_line(&mut self, number: &str, text: &str, id: usize, byte: usize) -> usize {
        let line = self.numbered(number);
        self.quote((line, 4), text, id, (number.parse().unwrap(), byte, 0), ElementStyle::Quotation);
        line
    }

    fn underline(&mut self, col: usize, len: usize, label: &str) {
        let line = self.bar();
        self.buffer.puts(line, 4 + col, &"^".repeat(len), ElementStyle::UnderlinePrimary);
        if !label.is_empty() {
            self.buffer.puts(line, 5 + col + len, label, ElementStyle::LabelPrimary);
        }
    }

    fn done(self) -> Rendered {
        Rendered { groups: vec![RenderedGroup { level: self.level, buffer: self.buffer }] }
    }
}

fn simple_report(decor: DecorStyle) -> Rendered {
    let mut layout = Layout::new(Level::Error, decor);
    layout.title("mismatched types");
    layout.origin("--> ", "╭▸ ", "src/main.rs:1:15");
    layout.bar();
    let id = layout.buffer.intern_source(Some("src/main.rs"));
    layout.source_line("1", "let x: u32 = \"hi\";", id, 0);
    layout.underline(14, 4, "expected `u32`");
    layout.done()
}

const TRIMMED: &str =
    "fn main() { let some_quite_long_variable_name = another_long_function_call(argument); }";

fn trimmed_report(decor: DecorStyle) -> Rendered {
    let mut layout = Layout::new(Level::Error, decor);
    layout.title("trimmed");
    layout.origin("--> ", "╭▸ ", "src/main.rs:1:61");
    layout.bar();
    let id = layout.buffer.intern_source(Some("src/main.rs"));
    let line = layout.numbered("1");
    let fold = layout.pick("...", "…");
    let width = fold.chars().count();
    layout.buffer.puts_meta(line, 4, fold, ElementStyle::LineNumber, CellMeta::fold());
    layout.quote((line, 4 + width), &TRIMMED[51..80], id, (1, 51, 51), ElementStyle::Quotation);
    layout.buffer.puts_meta(line, 33 + width, fold, ElementStyle::LineNumber, CellMeta::fold());
    layout.underline(9 + width, 15, "this bit right here");
    layout.done()
}

fn multiple_origins_report(decor: DecorStyle) -> Rendered {
    let mut layout = Layout::new(Level::Error, decor);
    layout.title("multiple origins");
    layout.origin("--> ", "╭▸ ", "src/first.rs:3:2");
    layout.origin("::: ", "⸬  ", "src/second.rs:9:12");
    layout.done()
}

fn overlapping_annotations_report(decor: DecorStyle) -> Rendered {
    let mut layout = Layout::new(Level::Error, decor);
    layout.title("overlapping");
    layout.origin("--> ", "╭▸ ", "src/main.rs:1:1");
    layout.bar();
    let id = layout.buffer.intern_source(Some("src/main.rs"));
    let quoted = [("1", "fn foo() {", 0), ("2", "    bar();", 11), ("3", "    baz();", 22)];
    for (number, text, byte) in quoted {
        let line = layout.numbered(number);
        let bar = layout.pick("|", "┃");
        for depth in 1..3 {
            let style = if depth == 1 {
                ElementStyle::UnderlinePrimary
            } else {
                ElementStyle::UnderlineSecondary
            };
            layout.tagged(line, 3 + depth, bar, style, CellTag::Sidebar { depth });
        }
        layout.quote((line, 8), text, id, (number.parse().unwrap(), byte, 0), ElementStyle::Quotation);
    }
    let line = layout.bar();
    let frame = layout.pick("|__________^", "┗━━━━━━━━━━┛");
    layout.buffer.puts(line, 4, frame, ElementStyle::UnderlinePrimary);
    layout.buffer.puts(line, 17, "outer", ElementStyle::LabelPrimary);
    let line = layout.bar();
    layout.buffer.puts(line, 5, "-------", ElementStyle::UnderlineSecondary);
    layout.buffer.puts(line, 13, "inner", ElementStyle::LabelSecondary);
    layout.done()
}

fn empty_label_report(decor: DecorStyle) -> Rendered {
    let mut layout = Layout::new(Level::Error, decor);
    layout.title("empty label");
    layout.origin("--> ", "╭▸ ", "src/main.rs:1:5");
    layout.bar();
    let id = layout.buffer.intern_source(Some("src/main.rs"));
    layout.source_line("1", "let x = 1;", id, 0);
    layout.underline(4, 1, "");
    let line = layout.buffer.num_lines() - 1;
    layout.buffer.puts(line, 12, "-", ElementStyle::UnderlineSecondary);
    layout.done()
}

fn multiline_suggestion_report(decor: DecorStyle) -> Rendered {
    let mut layout = Layout::new(Level::Help, decor);
    layout.title("consider this");
    layout.bar();
    let lines = [("1", "~ ", "let x = bar("), ("2", "+ ", "    1,"), ("3", "+ ", "    2,"), ("4", "~ ", ");")];
    for (number, marker, text) in lines {
        let line = layout.buffer.num_lines();
        layout.tagged(line, 0, number, ElementStyle::LineNumber, CellTag::LineNumber);
        layout.tagged(line, 2, marker, ElementStyle::Addition, CellTag::Suggestion);
        layout.tagged(line, 4, text, ElementStyle::NoStyle, CellTag::Suggestion);
        layout.buffer.set_style_range(line, 12, 16, ElementStyle::Addition, false);
    }
    layout.bar();
    layout.done()
}

fn crlf_report(decor: DecorStyle) -> Rendered {
    let mut layout = Layout::new(Level::Error, decor);
    layout.title("oops");
    layout.origin("--> ", "╭▸ ", "<current file>:2:8");
    layout.bar();
    let id = layout.buffer.intern_source(Some("<current file>"));
    layout.source_line("2", "Second oops line", id, "First line\r\n".len());
    layout.underline(7, 4, "oops");
    layout.done()
}

fn wide_chars_report(decor: DecorStyle) -> Rendered {
    let mut layout = Layout::new(Level::Error, decor);
    layout.title("wide");
    layout.origin("--> ", "╭▸ ", "<current file>:1:7");
    layout.bar();
    let id = layout.buffer.intern_source(Some("<current file>"));
    layout.source_line("1", "こんにちは、世界", id, 0);
    layout.underline(12, 4, "world");
    layout.done()
}

fn tabs_report(decor: DecorStyle) -> Rendered {
    let mut layout = Layout::new(Level::Error, decor);
    layout.title("tabs");
    layout.origin("--> ", "╭▸ ", "src/main.rs:1:6");
    layout.bar();
    let id = layout.buffer.intern_source(Some("src/main.rs"));
    layout.source_line("1", "\tfoo\tbar", id, 0);
    layout.underline(11, 3, "bar");
    layout.done()
}

fn combining_chars_report(decor: DecorStyle) -> Rendered {
    let mut layout = Layout::new(Level::Error, decor);
    layout.title("combining");
    layout.origin("--> ", "╭▸ ", "src/main.rs:1:1");
    layout.bar();
    let id = layout.buffer.intern_source(Some("src/main.rs"));
    layout.source_line("1", "cafe\u{301} au lait", id, 0);
    layout.underline(0, 4, "café");
    layout.done()
}

fn folded_lines_report(decor: DecorStyle) -> Rendered {
    let mut layout = Layout::new(Level::Error, decor);
    layout.title("folded");
    layout.origin("--> ", "╭▸ ", "src/main.rs:1:1");
    layout.bar();
    let id = layout.buffer.intern_source(Some("src/main.rs"));
    layout.source_line("1", "a", id, 0);
    layout.underline(0, 1, "first");
    let line = layout.buffer.num_lines();
    let fold = layout.pick("...", "‡");
    layout.buffer.puts_meta(line, 0, fold, ElementStyle::LineNumber, CellMeta::fold());
    layout.source_line("8", "h", id, 14);
    layout.underline(0, 1, "last");
    layout.done()
}

fn removal_report(decor: DecorStyle) -> Rendered {
    let mut layout = Layout::new(Level::Help, decor);
    layout.title("remove it");
    layout.bar();
    let id = layout.buffer.intern_source(Some("src/main.rs"));
    let line = layout.buffer.num_lines();
    layout.tagged(line, 0, "1", ElementStyle::LineNumber, CellTag::LineNumber);
    layout.tagged(line, 2, "- ", ElementStyle::Removal, CellTag::Suggestion);
    layout.quote((line, 4), "let x = 1;", id, (1, 0, 0), ElementStyle::Removal);
    layout.done()
}

fn all_reports_with(decor: DecorStyle) -> Vec<(&'static str, Rendered)> {
    vec![
        ("simple", simple_report(decor)),
        ("trimmed", trimmed_report(decor)),
        ("multiple_origins", multiple_origins_report(decor)),
        ("overlapping_annotations", overlapping_annotations_report(decor)),
        ("empty_label", empty_label_report(decor)),
        ("multiline_suggestion", multiline_suggestion_report(decor)),
        ("crlf", crlf_report(decor)),
        ("wide_chars", wide_chars_report(decor)),
        ("tabs", tabs_report(decor)),
        ("combining_chars", combining_chars_report(decor)),
        ("folded_lines", folded_lines_report(decor)),
    ]
}

fn all_reports() -> Vec<(&'static str, Rendered)> {
    all_reports_with(DecorStyle::Ascii)
}

fn styled_renderer() -> Renderer {
    let mut error = ElementStyles::uniform(Style::new());
    error.underline_primary = Style::new().bold();
    error.error = Style::new().bold();
    error.line_number = Style::new().dimmed();
    let mut help = ElementStyles::uniform(Style::new().italic());
    help.addition = Style::new().underline();
    Renderer {
        stylesheet: Stylesheet {
            none: Style::new(),
            error,
            warning: error,
            info: error,
            note: error,
            help,
        },
    }
}

fn quoted(events: &[Event]) -> Vec<&Event> {
    events.iter().filter(|e| e.kind == EventKind::Source).collect()
}

#[test]
fn events_reconstruct_rendered_text() {
    for decor_style in [DecorStyle::Ascii, DecorStyle::Unicode] {
        for (name, report) in all_reports_with(decor_style) {
            let renderer = Renderer::plain();
            let events = renderer.render_events(&report);
            let expected = renderer.render(&report);
            let actual = reconstruct(&events);
            assert_eq!(actual, expected, "report `{name}` with {decor_style:?}");
        }
    }
}

#[test]
fn short_message_events_reconstruct_rendered_text() {
    let mut buffer = StyledBuffer::new();
    buffer.append(0, "src/main.rs:1:15: ", ElementStyle::LineAndColumn);
    buffer.append(0, "error", ElementStyle::Level(Level::Error));
    buffer.append(0, ": mismatched types", ElementStyle::MainHeaderMsg);
    let report = Rendered { groups: vec![RenderedGroup { level: Level::Error, buffer }] };
    let renderer = Renderer::plain();
    let events = renderer.render_events(&report);
    assert_eq!(reconstruct(&events), renderer.render(&report));
    assert_eq!(reconstruct(&events), "src/main.rs:1:15: error: mismatched types");
}

#[test]
fn styling_only_affects_event_styles() {
    for (name, report) in all_reports() {
        let plain = Renderer::plain().render_events(&report);
        let styled = styled_renderer().render_events(&report);
        assert_eq!(plain.len(), styled.len(), "report `{name}`");
        for (plain, styled) in plain.iter().zip(styled.iter()) {
            let plain_unstyled = Event { style: Style::new(), ..plain.clone() };
            let styled_unstyled = Event { style: Style::new(), ..styled.clone() };
            assert_eq!(plain_unstyled, styled_unstyled, "report `{name}`");
        }
        assert!(plain.iter().all(|e| e.style == Style::new()), "report `{name}`");
        assert!(styled.iter().any(|e| e.style != Style::new()), "report `{name}`");
    }
}

#[test]
fn streaming_matches_batch() {
    for (name, report) in all_reports() {
        let renderer = Renderer::plain();
        let batch = renderer.render_events(&report);
        let mut streamed = Vec::new();
        renderer.render_events_with(&report, &mut streamed);
        assert_eq!(batch, streamed, "report `{name}`");
    }
}

#[test]
fn decor_has_no_source_range() {
    for (name, report) in all_reports() {
        let events = Renderer::plain().render_events(&report);
        for event in &events {
            match event.kind {
                EventKind::Source => {
                    assert!(event.source.is_some(), "report `{name}`: {event:?}");
                }
                _ => assert!(event.source.is_none(), "report `{name}`: {event:?}"),
            }
        }
    }
}

#[test]
fn source_events_cover_quoted_text() {
    let source = "let x: u32 = \"hi\";";
    let report = simple_report(DecorStyle::Ascii);
    let events = Renderer::plain().render_events(&report);
    let quoted = quoted(&events);
    assert_eq!(quoted.len(), 1);
    let source_ref = quoted[0].source.as_ref().unwrap();
    assert_eq!(source_ref.path.as_deref(), Some("src/main.rs"));
    assert_eq!(source_ref.line, 1);
    assert_eq!(source_ref.byte_range, 0..source.len());
    assert_eq!(source_ref.column_range, 0..source.len());
    assert_eq!(&source[source_ref.byte_range.clone()], quoted[0].text);
}

#[test]
fn crlf_byte_offsets_account_for_line_ending() {
    let report = crlf_report(DecorStyle::Ascii);
    let events = Renderer::plain().render_events(&report);
    let quoted = quoted(&events);
    assert_eq!(quoted.len(), 1);
    let source_ref = quoted[0].source.as_ref().unwrap();
    // `First line\r\n` is 12 bytes, so the second line starts at byte 12.
    assert_eq!(source_ref.line, 2);
    assert_eq!(source_ref.byte_range, 12..28);
    assert_eq!(source_ref.column_range, 0..16);
    assert_eq!(quoted[0].text, "Second oops line");
}

#[test]
fn wide_chars_distinguish_bytes_from_columns() {
    let report = wide_chars_report(DecorStyle::Ascii);
    let events = Renderer::plain().render_events(&report);
    let quoted = quoted(&events);
    assert_eq!(quoted.len(), 1);
    let source_ref = quoted[0].source.as_ref().unwrap();
    // 8 characters, 24 bytes, 16 display columns.
    assert_eq!(source_ref.byte_range, 0..24);
    assert_eq!(source_ref.column_range, 0..16);
    assert_eq!(quoted[0].text, "こんにちは、世界");
}

#[test]
fn tabs_expand_visually_but_not_in_bytes() {
    let report = tabs_report(DecorStyle::Ascii);
    let events = Renderer::plain().render_events(&report);
    let quoted = quoted(&events);
    // Each tab renders as 4 spaces that map back to its single byte, so
    // the 8-byte source line occupies 14 display columns.
    assert_eq!(quoted.len(), 1);
    assert_eq!(quoted[0].text, "    foo    bar");
    assert_eq!(quoted[0].source.as_ref().unwrap().byte_range, 0..8);
    assert_eq!(quoted[0].source.as_ref().unwrap().column_range, 0..14);
}

#[test]
fn combining_chars_keep_byte_offsets() {
    let report = combining_chars_report(DecorStyle::Ascii);
    let events = Renderer::plain().render_events(&report);
    let quoted = quoted(&events);
    assert_eq!(quoted.len(), 1);
    let source_ref = quoted[0].source.as_ref().unwrap();
    assert_eq!(source_ref.byte_range, 0.."cafe\u{301} au lait".len());
    assert_eq!(quoted[0].text, "cafe\u{301} au lait");
}

#[test]
fn quoted_text_is_source_text() {
    let decor = DecorStyle::Ascii;
    let reports = [
        ("let x: u32 = \"hi\";", simple_report(decor)),
        (TRIMMED, trimmed_report(decor)),
        ("First line\r\nSecond oops line", crlf_report(decor)),
        ("こんにちは、世界", wide_chars_report(decor)),
        ("cafe\u{301} au lait", combining_chars_report(decor)),
        ("a\nb\nc\nd\ne\nf\ng\nh\n", folded_lines_report(decor)),
        ("let x = 1;\nlet y = 2;\n", removal_report(decor)),
    ];
    for (source, report) in reports {
        let events = Renderer::plain().render_events(&report);
        let mut seen = 0;
        for event in &events {
            if let Some(source_ref) = &event.source {
                assert_eq!(&source[source_ref.byte_range.clone()], event.text);
                seen += 1;
            }
        }
        assert!(seen > 0);
    }
}

#[test]
fn trimming_emits_fold_markers() {
    let report = trimmed_report(DecorStyle::Ascii);
    let events = Renderer::plain().render_events(&report);
    let folds: Vec<&Event> = events.iter().filter(|e| e.kind == EventKind::Fold).collect();
    assert!(!folds.is_empty());
    assert!(folds.iter().all(|e| e.text == "..."));
    // The surviving source text still points at the right bytes.
    let quoted = quoted(&events);
    assert!(!quoted.is_empty());
    for event in quoted {
        let source_ref = event.source.as_ref().unwrap();
        assert_eq!(
            &&"fn main() { let some_quite_long_variable_name = another_long_function_call(argument); }"
                [source_ref.byte_range.clone()],
            &event.text,
        );
    }
}

#[test]
fn folded_lines_emit_fold_markers() {
    let report = folded_lines_report(DecorStyle::Ascii);
    let events = Renderer::plain().render_events(&report);
    let folds: Vec<&Event> = events.iter().filter(|e| e.kind == EventKind::Fold).collect();
    assert_eq!(folds.len(), 1);
    assert_eq!(folds[0].text, "...");
}

#[test]
fn multiline_annotations_have_sidebar_depths() {
    let report = overlapping_annotations_report(DecorStyle::Ascii);
    let events = Renderer::plain().render_events(&report);
    let depths: Vec<usize> = events
        .iter()
        .filter_map(|e| match e.kind {
            EventKind::Sidebar { depth } => Some(depth),
            _ => None,
        })
        .collect();
    assert!(depths.contains(&0));
    assert!(depths.iter().any(|d| *d >= 1));
}

#[test]
fn multiple_origins_emit_origin_events() {
    let report = multiple_origins_report(DecorStyle::Ascii);
    let events = Renderer::plain().render_events(&report);
    let origins: Vec<&Event> = events.iter().filter(|e| e.kind == EventKind::Origin).collect();
    assert_eq!(origins.len(), 2);
    assert_eq!(origins[0].text, "src/first.rs:3:2");
    assert_eq!(origins[1].text, "src/second.rs:9:12");
}

#[test]
fn multiline_suggestion_emits_addition_events() {
    let report = multiline_suggestion_report(DecorStyle::Ascii);
    let events = Renderer::plain().render_events(&report);
    assert!(events.iter().any(|e| e.kind == EventKind::Addition && e.text.contains("+")));
    // The suggested replacement text is not part of the original source.
    for event in &events {
        if event.text.contains("bar(") {
            assert!(event.source.is_none());
        }
    }
}

#[test]
fn removal_suggestion_marks_source_text() {
    let report = removal_report(DecorStyle::Ascii);
    let events = Renderer::plain().render_events(&report);
    let removals: Vec<&Event> = events.iter().filter(|e| e.kind == EventKind::Removal).collect();
    assert!(!removals.is_empty());
    // Removed source text keeps pointing into the original source.
    assert!(removals.iter().any(|e| e.source.is_some() && e.text.contains("let x = 1;")));
}

#[test]
fn event_kinds_for_simple_report() {
    let report = simple_report(DecorStyle::Ascii);
    let events = Renderer::plain().render_events(&report);
    let kinds: Vec<(EventKind, &str)> = events.iter().map(|e| (e.kind, e.text.as_str())).collect();
    let expected = [
        (EventKind::Title, "error"),
        (EventKind::Title, ": mismatched types"),
        (EventKind::Text, " "),
        (EventKind::Separator, "--> "),
        (EventKind::Origin, "src/main.rs:1:15"),
        (EventKind::Text, "  "),
        (EventKind::Sidebar { depth: 0 }, "|"),
        (EventKind::LineNumber, "1"),
        (EventKind::Text, " "),
        (EventKind::Sidebar { depth: 0 }, "|"),
        (EventKind::Text, " "),
        (EventKind::Source, "let x: u32 = \"hi\";"),
        (EventKind::Text, "  "),
        (EventKind::Sidebar { depth: 0 }, "|"),
        (EventKind::Text, "               "),
        (EventKind::Underline, "^^^^"),
        (EventKind::Text, " "),
        (EventKind::Label, "expected `u32`"),
    ];
    assert_eq!(kinds, expected);
}
