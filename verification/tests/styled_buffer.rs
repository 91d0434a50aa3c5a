//! Writing to a buffer, and reading it as text.

use anstyle::{AnsiColor, Style};
use snippet_events::renderer::{Rendered, RenderedGroup, Renderer};
use snippet_events::style::{ElementStyle, ElementStyles, Level, Stylesheet};
use snippet_events::styled_buffer::{CellMeta, CellSource, CellTag, StyledBuffer, StyledChar};

fn text(buffer: &StyledBuffer) -> Vec<String> {
    buffer.lines().iter().map(|line| line.iter().map(|cell| cell.ch()).collect()).collect()
}

fn point(source_id: usize) -> CellSource {
    CellSource { source_id, line: 3, byte_start: 7, byte_end: 9, display_start: 1, display_end: 3 }
}

fn plain_text(buffer: &StyledBuffer) -> String {
    let mut out = String::new();
    buffer.render(Level::Error, &Stylesheet::plain(), &mut out).unwrap();
    out
}

/// Distinct styles for the elements that the tests below use.
fn sheet() -> Stylesheet {
    let mut error = ElementStyles::uniform(Style::new());
    error.underline_primary = Style::new().bold();
    error.label_primary = Style::new().fg_color(Some(AnsiColor::Red.into()));
    error.label_secondary = Style::new().bold();
    let mut help = error;
    help.underline_primary = Style::new().italic();
    Stylesheet { none: Style::new(), error, warning: error, info: error, note: error, help }
}

fn render(buffer: &StyledBuffer, level: Level, stylesheet: &Stylesheet) -> String {
    let mut out = String::new();
    assert_eq!(buffer.render(level, stylesheet, &mut out), Ok(()));
    out
}

#[test]
fn cells_hold_what_they_are_made_of() {
    let cell = StyledChar::with_meta('x', ElementStyle::Quotation, CellMeta::source(point(0)));
    assert_eq!(cell.ch(), 'x');
    assert_eq!(cell.style(), ElementStyle::Quotation);
    assert_eq!(cell.meta(), CellMeta { source: Some(point(0)), tag: CellTag::Untagged });
    assert_eq!(StyledChar::new('y', ElementStyle::HeaderMsg).meta(), CellMeta::none());
    assert_eq!(StyledChar::space(), StyledChar::new(' ', ElementStyle::NoStyle));
    assert_eq!(CellMeta::fold(), CellMeta { source: None, tag: CellTag::Fold });
    assert_eq!(CellMeta::default(), CellMeta::none());
    assert_eq!(CellTag::default(), CellTag::Untagged);
}

#[test]
fn new_buffer_is_empty() {
    let buffer = StyledBuffer::new();
    assert_eq!(buffer.num_lines(), 0);
    assert!(buffer.lines().is_empty());
    assert_eq!(buffer.source_origin(0), None);
    assert_eq!(plain_text(&buffer), "");
}

#[test]
fn ensure_lines_adds_empty_lines() {
    let mut buffer = StyledBuffer::new();
    buffer.ensure_lines(2);
    assert_eq!(text(&buffer), ["", "", ""]);
    buffer.ensure_lines(1);
    assert_eq!(buffer.num_lines(), 3);
    assert_eq!(plain_text(&buffer), "\n\n");
}

#[test]
fn putc_fills_gaps_with_blanks() {
    let mut buffer = StyledBuffer::new();
    buffer.putc(1, 2, 'x', ElementStyle::Quotation);
    assert_eq!(text(&buffer), ["", "  x"]);
    assert_eq!(buffer.lines()[1][0], StyledChar::space());
    assert_eq!(buffer.lines()[1][2], StyledChar::new('x', ElementStyle::Quotation));
    buffer.putc(1, 0, 'y', ElementStyle::HeaderMsg);
    assert_eq!(text(&buffer), ["", "y x"]);
}

#[test]
fn puts_overwrites_and_extends() {
    let mut buffer = StyledBuffer::new();
    buffer.puts(0, 0, "hello", ElementStyle::NoStyle);
    buffer.puts(0, 3, "pérez", ElementStyle::Quotation);
    assert_eq!(text(&buffer), ["helpérez"]);
    assert_eq!(buffer.lines()[0][2].style(), ElementStyle::NoStyle);
    assert_eq!(buffer.lines()[0][3].style(), ElementStyle::Quotation);
    buffer.puts(0, 1, "E", ElementStyle::NoStyle);
    assert_eq!(text(&buffer), ["hElpérez"]);
}

#[test]
fn puts_is_putc_by_putc() {
    let mut at_once = StyledBuffer::new();
    at_once.puts(1, 2, "abc", ElementStyle::Addition);
    let mut one_by_one = StyledBuffer::new();
    for (offset, ch) in "abc".chars().enumerate() {
        one_by_one.putc(1, 2 + offset, ch, ElementStyle::Addition);
    }
    assert_eq!(at_once.lines(), one_by_one.lines());
}

#[test]
fn blank_strings_add_nothing() {
    let mut buffer = StyledBuffer::new();
    buffer.puts(4, 9, "", ElementStyle::NoStyle);
    buffer.append(4, "", ElementStyle::NoStyle);
    buffer.puts(usize::MAX, usize::MAX, "", ElementStyle::NoStyle);
    assert_eq!(buffer.num_lines(), 0);
}

#[test]
fn append_starts_behind_the_line() {
    let mut buffer = StyledBuffer::new();
    buffer.append(1, "ab", ElementStyle::NoStyle);
    buffer.append(1, "cd", ElementStyle::Quotation);
    buffer.append(0, "x", ElementStyle::NoStyle);
    assert_eq!(text(&buffer), ["x", "abcd"]);
}

#[test]
fn replace_swaps_columns() {
    let mut buffer = StyledBuffer::new();
    buffer.puts(0, 0, "0123456789", ElementStyle::Quotation);
    buffer.set_tag(CellTag::Fold);
    buffer.replace(0, 2, 7, "...");
    assert_eq!(text(&buffer), ["01...789"]);
    let replaced = buffer.lines()[0][3];
    assert_eq!(replaced.style(), ElementStyle::LineNumber);
    assert_eq!(replaced.meta(), CellMeta { source: None, tag: CellTag::Fold });
    assert_eq!(buffer.lines()[0][5].style(), ElementStyle::Quotation);
    buffer.replace(0, 0, 8, "");
    assert_eq!(text(&buffer), [""]);
}

#[test]
fn replace_out_of_bounds_does_nothing() {
    let mut buffer = StyledBuffer::new();
    buffer.puts(0, 0, "abc", ElementStyle::NoStyle);
    buffer.replace(0, 1, 4, "...");
    buffer.replace(0, 5, 6, "...");
    buffer.replace(0, 5, 4, "...");
    buffer.replace(0, 2, 2, "...");
    buffer.replace(7, 2, 2, "...");
    assert_eq!(text(&buffer), ["abc"]);
    buffer.replace(0, 1, 3, "...");
    assert_eq!(text(&buffer), ["a..."]);
}

#[test]
fn tags_are_stamped_until_changed() {
    let mut buffer = StyledBuffer::new();
    assert_eq!(buffer.set_tag(CellTag::Suggestion), CellTag::Untagged);
    buffer.puts(0, 0, "a", ElementStyle::NoStyle);
    buffer.putc(0, 1, 'b', ElementStyle::NoStyle);
    assert_eq!(buffer.set_tag(CellTag::Untagged), CellTag::Suggestion);
    buffer.append(0, "c", ElementStyle::NoStyle);
    buffer.puts_meta(0, 3, "d", ElementStyle::NoStyle, CellMeta::fold());
    let tags: Vec<CellTag> = buffer.lines()[0].iter().map(|cell| cell.meta().tag).collect();
    assert_eq!(
        tags,
        [CellTag::Suggestion, CellTag::Suggestion, CellTag::Untagged, CellTag::Fold],
    );
}

#[test]
fn styles_of_their_own_are_kept_without_overwrite() {
    let mut buffer = StyledBuffer::new();
    buffer.puts(0, 0, "a", ElementStyle::NoStyle);
    buffer.puts(0, 1, "b", ElementStyle::Quotation);
    buffer.puts(0, 2, "cd", ElementStyle::Addition);
    buffer.set_style_range(0, 0, 4, ElementStyle::Removal, false);
    buffer.set_style(0, 3, ElementStyle::HeaderMsg, true);
    buffer.set_style(0, 4, ElementStyle::HeaderMsg, true);
    buffer.set_style(1, 0, ElementStyle::HeaderMsg, true);
    buffer.set_style_range(0, 3, 1, ElementStyle::LineNumber, true);
    let styles: Vec<ElementStyle> = buffer.lines()[0].iter().map(|cell| cell.style()).collect();
    assert_eq!(
        styles,
        [
            ElementStyle::Removal,
            ElementStyle::Removal,
            ElementStyle::Addition,
            ElementStyle::HeaderMsg,
        ],
    );
    assert_eq!(text(&buffer), ["abcd"]);
}

#[test]
fn ranges_that_do_not_exist_are_not_restyled() {
    let mut buffer = StyledBuffer::new();
    buffer.puts(0, 0, "ab", ElementStyle::NoStyle);
    let styles = |buffer: &StyledBuffer| -> Vec<ElementStyle> {
        buffer.lines()[0].iter().map(|cell| cell.style()).collect()
    };
    // The range ends behind the line.
    buffer.set_style_range(0, 1, 5, ElementStyle::LabelPrimary, true);
    assert_eq!(styles(&buffer), [ElementStyle::NoStyle, ElementStyle::NoStyle]);
    buffer.set_style_range(0, 0, 3, ElementStyle::LabelPrimary, false);
    assert_eq!(styles(&buffer), [ElementStyle::NoStyle, ElementStyle::NoStyle]);
    // There is no such line.
    buffer.set_style_range(1, 0, 1, ElementStyle::LabelPrimary, true);
    assert_eq!(buffer.num_lines(), 1);
    // The range ends with the line.
    buffer.set_style_range(0, 1, 2, ElementStyle::LabelPrimary, true);
    assert_eq!(styles(&buffer), [ElementStyle::NoStyle, ElementStyle::LabelPrimary]);
}

#[test]
fn texts_are_appended_in_turn_or_at_once() {
    for (first, second) in [("ab", "cd"), ("", "cd"), ("ab", ""), ("", "")] {
        for line in [0, 2] {
            let fill = || {
                let mut buffer = StyledBuffer::new();
                buffer.puts(0, 0, "x", ElementStyle::NoStyle);
                buffer
            };
            let mut in_turn = fill();
            in_turn.append(line, first, ElementStyle::Quotation);
            in_turn.append(line, second, ElementStyle::Quotation);
            let mut at_once = fill();
            at_once.append(line, &format!("{first}{second}"), ElementStyle::Quotation);
            assert_eq!(in_turn.lines(), at_once.lines());
        }
    }
}

#[test]
fn ranges_are_restyled_column_by_column() {
    let fill = || {
        let mut buffer = StyledBuffer::new();
        buffer.puts(0, 0, "ab", ElementStyle::NoStyle);
        buffer.puts(0, 2, "cd", ElementStyle::LabelPrimary);
        buffer.puts(0, 4, "ef", ElementStyle::Quotation);
        buffer
    };
    for overwrite in [false, true] {
        let mut at_once = fill();
        at_once.set_style_range(0, 1, 5, ElementStyle::Removal, overwrite);
        let mut one_by_one = fill();
        for col in 1..5 {
            one_by_one.set_style(0, col, ElementStyle::Removal, overwrite);
        }
        assert_eq!(at_once.lines(), one_by_one.lines());
        assert_eq!(at_once.lines()[0][4].style(), ElementStyle::Removal);
        assert_eq!(at_once.lines()[0][5].style(), ElementStyle::Quotation);
    }
}

#[test]
fn sources_are_registered_once() {
    let mut buffer = StyledBuffer::new();
    assert_eq!(buffer.intern_source(Some("a.rs")), 0);
    assert_eq!(buffer.intern_source(None), 1);
    assert_eq!(buffer.intern_source(Some("b.rs")), 2);
    assert_eq!(buffer.intern_source(Some("a.rs")), 0);
    assert_eq!(buffer.intern_source(None), 1);
    assert_eq!(buffer.source_origin(0), Some(&Some("a.rs".to_owned())));
    assert_eq!(buffer.source_origin(1), Some(&None));
    assert_eq!(buffer.source_origin(2), Some(&Some("b.rs".to_owned())));
    assert_eq!(buffer.source_origin(3), None);
}

#[test]
fn plain_rendering_is_the_text() {
    let mut buffer = StyledBuffer::new();
    buffer.puts(0, 0, "error", ElementStyle::Level(Level::Error));
    buffer.puts(2, 1, "|", ElementStyle::LineNumber);
    assert_eq!(plain_text(&buffer), "error\n\n |");
}

#[test]
fn rendering_appends() {
    let mut buffer = StyledBuffer::new();
    buffer.puts(0, 0, "x", ElementStyle::NoStyle);
    let mut out = "before ".to_owned();
    buffer.render(Level::Note, &Stylesheet::plain(), &mut out).unwrap();
    assert_eq!(out, "before x");
}

#[test]
fn styles_are_switched_where_they_change() {
    let mut buffer = StyledBuffer::new();
    buffer.puts(0, 0, "a", ElementStyle::NoStyle);
    buffer.puts(0, 1, "^^", ElementStyle::UnderlinePrimary);
    buffer.puts(0, 3, "x", ElementStyle::LabelPrimary);
    buffer.puts(1, 0, "-", ElementStyle::UnderlinePrimary);
    assert_eq!(
        render(&buffer, Level::Error, &sheet()),
        "a\u{1b}[1m^^\u{1b}[0m\u{1b}[31mx\u{1b}[0m\n\u{1b}[1m-\u{1b}[0m",
    );
}

#[test]
fn styles_depend_on_the_level() {
    let mut buffer = StyledBuffer::new();
    buffer.puts(0, 0, "^", ElementStyle::UnderlinePrimary);
    assert_eq!(render(&buffer, Level::Error, &sheet()), "\u{1b}[1m^\u{1b}[0m");
    assert_eq!(render(&buffer, Level::Help, &sheet()), "\u{1b}[3m^\u{1b}[0m");
}

#[test]
fn equal_styles_of_different_elements_are_not_switched() {
    let mut buffer = StyledBuffer::new();
    buffer.puts(0, 0, "^", ElementStyle::UnderlinePrimary);
    buffer.puts(0, 1, "x", ElementStyle::LabelSecondary);
    assert_eq!(render(&buffer, Level::Error, &sheet()), "\u{1b}[1m^x\u{1b}[0m");
}

#[test]
fn lines_start_from_the_style_of_none() {
    let mut buffer = StyledBuffer::new();
    buffer.puts(0, 0, "a", ElementStyle::NoStyle);
    buffer.ensure_lines(1);
    let stylesheet = Stylesheet { none: Style::new().bold(), ..sheet() };
    assert_eq!(render(&buffer, Level::Error, &stylesheet), "\u{1b}[0ma\n\u{1b}[0m");
}

#[test]
fn every_element_has_its_style() {
    let numbered = |n: u8| Style::new().fg_color(Some(anstyle::Ansi256Color(n).into()));
    let styles = ElementStyles {
        main_header_msg: numbered(0),
        header_msg: numbered(1),
        line_and_column: numbered(2),
        line_number: numbered(3),
        quotation: numbered(4),
        underline_primary: numbered(5),
        underline_secondary: numbered(6),
        label_primary: numbered(7),
        label_secondary: numbered(8),
        no_style: numbered(9),
        error: numbered(10),
        warning: numbered(11),
        info: numbered(12),
        note: numbered(13),
        help: numbered(14),
        addition: numbered(15),
        removal: numbered(16),
    };
    let other = ElementStyles::uniform(Style::new());
    let stylesheet = Stylesheet {
        none: Style::new(),
        error: other,
        warning: styles,
        info: other,
        note: other,
        help: other,
    };
    let elements = [
        ElementStyle::MainHeaderMsg,
        ElementStyle::HeaderMsg,
        ElementStyle::LineAndColumn,
        ElementStyle::LineNumber,
        ElementStyle::Quotation,
        ElementStyle::UnderlinePrimary,
        ElementStyle::UnderlineSecondary,
        ElementStyle::LabelPrimary,
        ElementStyle::LabelSecondary,
        ElementStyle::NoStyle,
        ElementStyle::Level(Level::Error),
        ElementStyle::Level(Level::Warning),
        ElementStyle::Level(Level::Info),
        ElementStyle::Level(Level::Note),
        ElementStyle::Level(Level::Help),
        ElementStyle::Addition,
        ElementStyle::Removal,
    ];
    for (n, element) in elements.into_iter().enumerate() {
        assert_eq!(element.color_spec(Level::Warning, &stylesheet), numbered(n as u8));
        assert_eq!(element.color_spec(Level::Info, &stylesheet), Style::new());
    }
}

#[test]
fn groups_are_joined_by_line_breaks() {
    let group = |level, lines: &[&str]| {
        let mut buffer = StyledBuffer::new();
        for (line, text) in lines.iter().enumerate() {
            buffer.ensure_lines(line);
            buffer.puts(line, 0, text, ElementStyle::NoStyle);
        }
        RenderedGroup { level, buffer }
    };
    let rendered = Rendered {
        groups: vec![
            group(Level::Error, &[]),
            group(Level::Error, &["a", ""]),
            group(Level::Note, &[]),
            group(Level::Help, &["b"]),
            group(Level::Help, &[]),
        ],
    };
    assert_eq!(Renderer::plain().render(&rendered), "a\n\nb");
    let lines: Vec<usize> =
        Renderer::plain().render_events(&rendered).iter().map(|event| event.line).collect();
    assert_eq!(lines, [0, 1, 2]);
    assert_eq!(Renderer::plain().render(&Rendered { groups: vec![] }), "");
}
