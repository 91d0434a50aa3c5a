//! What holds of the output as a whole.

use vstd::prelude::*;

use crate::events;
use crate::renderer;
use crate::style;
use crate::styled_buffer;
use crate::terminal;
use crate::text;

verus! {

/// Whether `run` is a maximal run of `cells`: each of its cells extends it, and
/// the one behind it does not.
pub open spec fn is_run(
    cells: Seq<styled_buffer::StyledChar>,
    run: events::RunView,
) -> bool {
    let start = run.column as int;
    let end = start + run.text.len();
    &&& 0 <= start < end <= cells.len()
    &&& run == events::run_of(cells, start, end)
    &&& forall|col: int| start < col < end ==> #[trigger] events::extends(cells, start, col)
    &&& end < cells.len() ==> !events::extends(cells, start, end)
}

/// Between the columns `end` and `run_end` every cell extends the run.
proof fn lemma_run_end(cells: Seq<styled_buffer::StyledChar>, start: int, end: int)
    requires
        start < end <= cells.len(),
    ensures
        ({
            let last = events::run_end(cells, start, end);
            &&& end <= last <= cells.len()
            &&& forall|col: int| end <= col < last ==> #[trigger] events::extends(cells, start, col)
            &&& last < cells.len() ==> !events::extends(cells, start, last)
        }),
    decreases cells.len() - end,
{
    if end < cells.len() && events::extends(cells, start, end) {
        lemma_run_end(cells, start, end + 1);
    }
}

/// The runs of a line are maximal runs that follow one another without a gap,
/// from its first column to its last.
pub proof fn lemma_runs(cells: Seq<styled_buffer::StyledChar>, start: int)
    requires
        0 <= start <= cells.len(),
    ensures
        ({
            let runs = events::runs_from(cells, start);
            &&& runs.len() == 0 <==> start == cells.len()
            &&& runs.len() > 0 ==> runs[0].column == start
            &&& runs.len() > 0 ==> runs.last().column + runs.last().text.len() == cells.len()
            &&& forall|i: int| 0 <= i < runs.len() ==> is_run(cells, #[trigger] runs[i])
            &&& forall|i: int, j: int|
                0 <= i && j == i + 1 && j < runs.len() ==> (#[trigger] runs[j]).column == (
                #[trigger] runs[i]).column + runs[i].text.len()
            &&& runs.len() <= cells.len() - start
        }),
    decreases cells.len() - start,
{
    if start < cells.len() {
        let end = events::run_end(cells, start, start + 1);
        let run = events::run_of(cells, start, end);
        lemma_run_end(cells, start, start + 1);
        lemma_runs(cells, end);
        assert(is_run(cells, run));
        let rest = events::runs_from(cells, end);
        let runs = events::runs_from(cells, start);
        assert(runs =~= seq![run] + rest);
        assert forall|i: int| 0 <= i < runs.len() implies is_run(cells, #[trigger] runs[i]) by {
            if i > 0 {
                assert(runs[i] == rest[i - 1]);
            }
        }
        assert forall|i: int, j: int| 0 <= i && j == i + 1 && j < runs.len() implies (
        #[trigger] runs[j]).column == (#[trigger] runs[i]).column + runs[i].text.len() by {
            assert(runs[j] == rest[j - 1]);
            if i > 0 {
                assert(runs[i] == rest[i - 1]);
            }
        }
        if rest.len() > 0 {
            assert(runs.last() == rest.last());
        } else {
            assert(runs.last() == run);
        }
    }
}

/// Whether `event` belongs to the line that it names: it is one of its maximal
/// runs, or the placeholder for an empty line.
pub open spec fn is_event_of(
    lines: Seq<renderer::LineView>,
    event: events::EventView,
    stylesheet: style::Stylesheet,
) -> bool {
    let line = lines[event.line as int];
    &&& event.line < lines.len()
    &&& if line.cells.len() == 0 {
        event == events::empty_line_event(event.line, line.level, stylesheet)
    } else {
        exists|run: events::RunView|
            {
                &&& #[trigger] is_run(line.cells, run)
                &&& event == run.event(event.line, line.level, line.sources, stylesheet)
            }
    }
}

/// The events of the first `n` lines belong to those lines.
proof fn lemma_events_upto(lines: Seq<renderer::LineView>, n: nat, stylesheet: style::Stylesheet)
    requires
        n <= lines.len(),
    ensures
        forall|i: int|
            0 <= i < events::events_upto(lines, n, stylesheet).len() ==> {
                let event = #[trigger] events::events_upto(lines, n, stylesheet)[i];
                event.line < n && is_event_of(lines, event, stylesheet)
            },
    decreases n,
{
    if n > 0 {
        let before = events::events_upto(lines, (n - 1) as nat, stylesheet);
        let line = lines[n - 1];
        let here = events::line_events(line.cells, (n - 1) as nat, line.level, line.sources, stylesheet);
        lemma_events_upto(lines, (n - 1) as nat, stylesheet);
        lemma_runs(line.cells, 0);
        assert forall|i: int|
            0 <= i < events::events_upto(lines, n, stylesheet).len() implies ({
            let event = #[trigger] events::events_upto(lines, n, stylesheet)[i];
            event.line < n && is_event_of(lines, event, stylesheet)
        }) by {
            let event = events::events_upto(lines, n, stylesheet)[i];
            if i < before.len() {
                assert(event == before[i]);
            } else {
                assert(event == here[i - before.len()]);
                if line.cells.len() > 0 {
                    let run = events::runs_from(line.cells, 0)[i - before.len()];
                    assert(is_run(line.cells, run));
                }
            }
        }
    }
}

/// Every event belongs to the line that it names: it is one of the maximal runs
/// of that line, or its placeholder if the line is empty.
pub proof fn law_events_belong_to_lines(
    lines: Seq<renderer::LineView>,
    stylesheet: style::Stylesheet,
)
    ensures
        forall|i: int|
            0 <= i < events::output_events(lines, stylesheet).len() ==> is_event_of(
                lines,
                #[trigger] events::output_events(lines, stylesheet)[i],
                stylesheet,
            ),
{
    lemma_events_upto(lines, lines.len(), stylesheet);
}

/// The cell at `col` lies within `event`.
pub open spec fn covers(event: events::EventView, col: int) -> bool {
    event.column <= col < event.column + event.text.len()
}

/// The event at `i` stands where it says: its text is what the line holds from
/// its column on.
pub proof fn law_positions(
    lines: Seq<renderer::LineView>,
    stylesheet: style::Stylesheet,
    i: int,
)
    requires
        0 <= i < events::output_events(lines, stylesheet).len(),
    ensures
        ({
            let event = events::output_events(lines, stylesheet)[i];
            let cells = lines[event.line as int].cells;
            &&& event.line < lines.len()
            &&& event.column + event.text.len() <= cells.len()
            &&& forall|col: int|
                covers(event, col) ==> event.text[col - event.column] == (#[trigger] cells[col]).ch
        }),
{
    law_events_belong_to_lines(lines, stylesheet);
}

/// Only an empty line has an event without text.
pub proof fn law_text_is_not_empty(
    lines: Seq<renderer::LineView>,
    stylesheet: style::Stylesheet,
    i: int,
)
    requires
        0 <= i < events::output_events(lines, stylesheet).len(),
    ensures
        ({
            let event = events::output_events(lines, stylesheet)[i];
            event.text.len() == 0 <==> lines[event.line as int].cells.len() == 0
        }),
{
    law_events_belong_to_lines(lines, stylesheet);
}

/// The text of an event never contains a line break, as long as no cell does.
pub proof fn law_no_line_break_in_text(
    lines: Seq<renderer::LineView>,
    stylesheet: style::Stylesheet,
    i: int,
)
    requires
        0 <= i < events::output_events(lines, stylesheet).len(),
        forall|line: int, col: int|
            0 <= line < lines.len() && 0 <= col < lines[line].cells.len() ==> (
            #[trigger] lines[line].cells[col]).ch != '\n',
    ensures
        !events::output_events(lines, stylesheet)[i].text.contains('\n'),
{
    let event = events::output_events(lines, stylesheet)[i];
    law_positions(lines, stylesheet, i);
    assert forall|k: int| 0 <= k < event.text.len() implies event.text[k] != '\n' by {
        assert(covers(event, event.column + k));
        assert(event.text[k] == lines[event.line as int].cells[event.column + k].ch);
    }
}

/// All characters of an event are of its kind and resolve to its style.
pub proof fn law_events_are_uniform(
    lines: Seq<renderer::LineView>,
    stylesheet: style::Stylesheet,
    i: int,
)
    requires
        0 <= i < events::output_events(lines, stylesheet).len(),
    ensures
        ({
            let event = events::output_events(lines, stylesheet)[i];
            let line = lines[event.line as int];
            forall|col: int|
                covers(event, col) ==> {
                    &&& events::cell_kind(#[trigger] line.cells[col]) == event.kind
                    &&& stylesheet.style_of(line.level, line.cells[col].style) == event.style
                }
        }),
{
    law_events_belong_to_lines(lines, stylesheet);
    let event = events::output_events(lines, stylesheet)[i];
    let line = lines[event.line as int];
    if line.cells.len() > 0 {
        let run = choose|run: events::RunView|
            {
                &&& #[trigger] is_run(line.cells, run)
                &&& event == run.event(event.line, line.level, line.sources, stylesheet)
            };
        assert forall|col: int| covers(event, col) implies {
            &&& events::cell_kind(#[trigger] line.cells[col]) == event.kind
            &&& stylesheet.style_of(line.level, line.cells[col].style) == event.style
        } by {
            if col > run.column {
                assert(events::extends(line.cells, run.column as int, col));
            }
        }
    }
}

/// What a cell represents, told from the kind: which cells are of it.  A tag
/// decides where it names a role; else a suggestion's style does, then whether
/// the cell was quoted, and then its style.
pub proof fn law_kind_of_cell(cell: styled_buffer::StyledChar)
    ensures
        ({
            let kind = events::cell_kind(cell);
            let style = cell.style;
            let untold = cell.meta.tag is Untagged || cell.meta.tag is Suggestion;
            let suggested = style is Addition || style is Removal;
            let unquoted = untold && cell.meta.source is None;
            &&& kind is Fold <==> cell.meta.tag is Fold
            &&& kind is Sidebar <==> cell.meta.tag is Sidebar
            &&& cell.meta.tag matches styled_buffer::CellTag::Sidebar { depth } ==> kind
                == (events::EventKind::Sidebar { depth })
            &&& kind is LineNumber <==> cell.meta.tag is LineNumber
            &&& kind is Addition <==> untold && style is Addition
            &&& kind is Removal <==> untold && style is Removal
            &&& kind is Source <==> untold && cell.meta.source is Some && !suggested
            &&& kind is Underline <==> unquoted && (style is UnderlinePrimary
                || style is UnderlineSecondary)
            &&& kind is Label <==> unquoted && (style is LabelPrimary || style is LabelSecondary)
            &&& kind is Title <==> unquoted && (style is Level || style is MainHeaderMsg
                || style is HeaderMsg)
            &&& kind is Origin <==> unquoted && style is LineAndColumn
            &&& kind is Separator <==> cell.meta.tag is Separator || (unquoted
                && style is LineNumber)
            &&& kind is Text <==> unquoted && (style is NoStyle || style is Quotation)
        }),
{
}

/// What a cell represents does not depend on the character that it shows, nor on
/// where it was quoted from: cells of the same style and tag are of the same
/// kind, if both were quoted or neither was.
pub proof fn law_kind_ignores_characters(
    one: styled_buffer::StyledChar,
    other: styled_buffer::StyledChar,
)
    requires
        one.style == other.style,
        one.meta.tag == other.meta.tag,
        one.meta.source is Some <==> other.meta.source is Some,
    ensures
        events::cell_kind(one) == events::cell_kind(other),
{
}

/// An event is an underline exactly if its cells are in the style of one, and are
/// neither tagged with another role nor quoted; it is text that a suggestion
/// removes or adds exactly if they are in the style of that, quoted or not.
pub proof fn law_underlines_and_removals_are_told_apart(
    lines: Seq<renderer::LineView>,
    stylesheet: style::Stylesheet,
    i: int,
    col: int,
)
    requires
        0 <= i < events::output_events(lines, stylesheet).len(),
        covers(events::output_events(lines, stylesheet)[i], col),
    ensures
        ({
            let event = events::output_events(lines, stylesheet)[i];
            let cell = lines[event.line as int].cells[col];
            let untold = cell.meta.tag is Untagged || cell.meta.tag is Suggestion;
            &&& event.kind is Underline <==> untold && cell.meta.source is None && (
            cell.style is UnderlinePrimary || cell.style is UnderlineSecondary)
            &&& event.kind is Removal <==> untold && cell.style is Removal
            &&& event.kind is Addition <==> untold && cell.style is Addition
        }),
{
    law_events_are_uniform(lines, stylesheet, i);
    let event = events::output_events(lines, stylesheet)[i];
    law_kind_of_cell(lines[event.line as int].cells[col]);
}

/// An empty line has a placeholder: unclassified, unstyled and unquoted text of
/// no characters at its first column.
pub proof fn law_empty_line_is_unclassified_text(
    lines: Seq<renderer::LineView>,
    stylesheet: style::Stylesheet,
    i: int,
)
    requires
        0 <= i < events::output_events(lines, stylesheet).len(),
        events::output_events(lines, stylesheet)[i].text.len() == 0,
    ensures
        ({
            let event = events::output_events(lines, stylesheet)[i];
            &&& event.column == 0
            &&& event.kind is Text
            &&& event.source is None
            &&& event.style == stylesheet.style_of(
                lines[event.line as int].level,
                style::ElementStyle::NoStyle,
            )
        }),
{
    law_events_belong_to_lines(lines, stylesheet);
}

/// Decoration has no source: only quoted text and text that a suggestion
/// removes can have one, and quoted text always has.
pub proof fn law_decoration_has_no_source(
    lines: Seq<renderer::LineView>,
    stylesheet: style::Stylesheet,
    i: int,
)
    requires
        0 <= i < events::output_events(lines, stylesheet).len(),
    ensures
        ({
            let event = events::output_events(lines, stylesheet)[i];
            &&& event.source is Some ==> event.kind is Source || event.kind is Removal
            &&& event.kind is Source ==> event.source is Some
        }),
{
    law_events_belong_to_lines(lines, stylesheet);
}

/// An event has a source exactly if it is quoted text, or text that a suggestion
/// removes and that was quoted.
pub proof fn law_quoted_events_have_a_source(
    lines: Seq<renderer::LineView>,
    stylesheet: style::Stylesheet,
    i: int,
    col: int,
)
    requires
        0 <= i < events::output_events(lines, stylesheet).len(),
        covers(events::output_events(lines, stylesheet)[i], col),
    ensures
        ({
            let event = events::output_events(lines, stylesheet)[i];
            let cell = lines[event.line as int].cells[col];
            event.source is Some <==> (event.kind is Source || event.kind is Removal)
                && cell.meta.source is Some
        }),
{
    law_events_belong_to_lines(lines, stylesheet);
    let event = events::output_events(lines, stylesheet)[i];
    let line = lines[event.line as int];
    let run = choose|run: events::RunView|
        {
            &&& #[trigger] is_run(line.cells, run)
            &&& event == run.event(event.line, line.level, line.sources, stylesheet)
        };
    if col > run.column {
        assert(events::extends(line.cells, run.column as int, col));
    }
}

/// `max_byte_end` and `max_display_end` bound the ends of all cells.
proof fn lemma_max_ends(cells: Seq<styled_buffer::StyledChar>)
    ensures
        forall|i: int|
            0 <= i < cells.len() ==> {
                &&& events::source_byte_end((#[trigger] cells[i]).meta.source)
                    <= events::max_byte_end(cells)
                &&& events::source_display_end(cells[i].meta.source) <= events::max_display_end(
                    cells,
                )
            },
    decreases cells.len(),
{
    if cells.len() > 0 {
        lemma_max_ends(cells.drop_last());
        assert forall|i: int| 0 <= i < cells.len() implies {
            &&& events::source_byte_end((#[trigger] cells[i]).meta.source) <= events::max_byte_end(
                cells,
            )
            &&& events::source_display_end(cells[i].meta.source) <= events::max_display_end(cells)
        } by {
            if i < cells.len() - 1 {
                assert(cells.drop_last()[i] == cells[i]);
            }
        }
    }
}

/// Whether the source byte `byte` is quoted by the cell.
pub open spec fn quotes_byte(cell: styled_buffer::StyledChar, byte: int) -> bool {
    match cell.meta.source {
        Some(point) => point.byte_start <= byte < point.byte_end,
        None => false,
    }
}

/// Whether the source byte `byte` is quoted by some cell of `event`.
pub open spec fn is_quoted(
    cells: Seq<styled_buffer::StyledChar>,
    event: events::EventView,
    byte: int,
) -> bool {
    exists|col: int| covers(event, col) && #[trigger] quotes_byte(cells[col], byte)
}

/// The cells of a run leave no gap in the source.
proof fn lemma_no_gap(cells: Seq<styled_buffer::StyledChar>, start: int, end: int, byte: int)
    requires
        0 <= start < end <= cells.len(),
        cells[start].meta.source matches Some(first) && first.byte_start <= byte,
        byte < events::max_byte_end(cells.subrange(start, end)),
        forall|col: int| start < col < end ==> #[trigger] events::extends(cells, start, col),
    ensures
        exists|col: int| start <= col < end && quotes_byte(#[trigger] cells[col], byte),
    decreases end,
{
    let part = cells.subrange(start, end);
    assert(part.drop_last() =~= cells.subrange(start, end - 1));
    if end == start + 1 {
        reveal_with_fuel(events::max_byte_end, 2);
        assert(quotes_byte(cells[start], byte));
    } else if byte < events::max_byte_end(part.drop_last()) {
        lemma_no_gap(cells, start, end - 1, byte);
    } else {
        assert(events::extends(cells, start, end - 1));
        assert(quotes_byte(cells[end - 1], byte));
    }
}

/// The source of an event is where all of its characters were quoted from: they
/// belong to one source, whose path it names, and the first gives its start and
/// line; its ranges reach behind every character, and every byte in its byte
/// range is quoted by some character, so that nothing is skipped.
pub proof fn law_source_covers_quoted_text(
    lines: Seq<renderer::LineView>,
    stylesheet: style::Stylesheet,
    i: int,
)
    requires
        0 <= i < events::output_events(lines, stylesheet).len(),
        events::output_events(lines, stylesheet)[i].source is Some,
    ensures
        ({
            let event = events::output_events(lines, stylesheet)[i];
            let source = event.source->0;
            let line = lines[event.line as int];
            &&& line.cells[event.column as int].meta.source matches Some(first) && {
                &&& source.line == first.line
                &&& source.byte_start == first.byte_start
                &&& source.column_start == first.display_start
                &&& source.path == if first.source_id < line.sources.len() {
                    line.sources[first.source_id as int]
                } else {
                    None
                }
                &&& forall|col: int|
                    covers(event, col) ==> ((#[trigger] line.cells[col]).meta.source matches Some(
                        point,
                    ) && {
                        &&& point.source_id == first.source_id
                        &&& source.byte_start <= point.byte_start
                        &&& point.byte_end <= source.byte_end
                        &&& point.display_end <= source.column_end
                    })
            }
            &&& forall|byte: int|
                source.byte_start <= byte < source.byte_end ==> #[trigger] is_quoted(
                    line.cells,
                    event,
                    byte,
                )
        }),
{
    law_events_belong_to_lines(lines, stylesheet);
    let event = events::output_events(lines, stylesheet)[i];
    let source = event.source->0;
    let line = lines[event.line as int];
    let run = choose|run: events::RunView|
        {
            &&& #[trigger] is_run(line.cells, run)
            &&& event == run.event(event.line, line.level, line.sources, stylesheet)
        };
    let start = run.column as int;
    let end = start + run.text.len();
    let part = line.cells.subrange(start, end);
    let first = line.cells[start].meta.source->0;
    lemma_max_ends(part);
    assert forall|col: int| covers(event, col) implies ((
    #[trigger] line.cells[col]).meta.source matches Some(point) && {
        &&& point.source_id == first.source_id
        &&& source.byte_start <= point.byte_start
        &&& point.byte_end <= source.byte_end
        &&& point.display_end <= source.column_end
    }) by {
        assert(part[col - start] == line.cells[col]);
        if col > start {
            assert(events::extends(line.cells, start, col));
        }
    }
    assert forall|byte: int| source.byte_start <= byte < source.byte_end implies #[trigger] is_quoted(
        line.cells,
        event,
        byte,
    ) by {
        lemma_no_gap(line.cells, start, end, byte);
        let col = choose|col: int|
            start <= col < end && quotes_byte(#[trigger] line.cells[col], byte);
        assert(covers(event, col) && quotes_byte(line.cells[col], byte));
    }
}

/// Of cells with sources, some ends where the ranges end.
proof fn lemma_max_ends_are_reached(cells: Seq<styled_buffer::StyledChar>)
    requires
        cells.len() > 0,
        forall|i: int| 0 <= i < cells.len() ==> (#[trigger] cells[i]).meta.source is Some,
    ensures
        exists|i: int|
            0 <= i < cells.len() && events::source_byte_end((#[trigger] cells[i]).meta.source)
                == events::max_byte_end(cells),
        exists|i: int|
            0 <= i < cells.len() && events::source_display_end((#[trigger] cells[i]).meta.source)
                == events::max_display_end(cells),
    decreases cells.len(),
{
    let before = cells.drop_last();
    let last = cells.len() - 1;
    assert(cells[last] == cells.last());
    if before.len() > 0 {
        assert forall|i: int| 0 <= i < before.len() implies (
        #[trigger] before[i]).meta.source is Some by {
            assert(before[i] == cells[i]);
        }
        lemma_max_ends_are_reached(before);
        let i = choose|i: int|
            0 <= i < before.len() && events::source_byte_end((#[trigger] before[i]).meta.source)
                == events::max_byte_end(before);
        let j = choose|j: int|
            0 <= j < before.len() && events::source_display_end((#[trigger] before[j]).meta.source)
                == events::max_display_end(before);
        assert(before[i] == cells[i] && before[j] == cells[j]);
    }
}

/// Whether some cell of `event` was quoted up to exactly `byte_end`.
pub open spec fn ends_at_byte(
    cells: Seq<styled_buffer::StyledChar>,
    event: events::EventView,
    byte_end: nat,
) -> bool {
    exists|col: int|
        covers(event, col) && ((#[trigger] cells[col]).meta.source matches Some(point)
            && point.byte_end == byte_end)
}

/// Whether some cell of `event` was quoted up to exactly the display column
/// `display_end`.
pub open spec fn ends_at_column(
    cells: Seq<styled_buffer::StyledChar>,
    event: events::EventView,
    display_end: nat,
) -> bool {
    exists|col: int|
        covers(event, col) && ((#[trigger] cells[col]).meta.source matches Some(point)
            && point.display_end == display_end)
}

/// The ranges of an event reach no further than its characters: some character
/// ends where the byte range ends, and some where the column range does.
pub proof fn law_source_ranges_are_tight(
    lines: Seq<renderer::LineView>,
    stylesheet: style::Stylesheet,
    i: int,
)
    requires
        0 <= i < events::output_events(lines, stylesheet).len(),
        events::output_events(lines, stylesheet)[i].source is Some,
    ensures
        ({
            let event = events::output_events(lines, stylesheet)[i];
            let cells = lines[event.line as int].cells;
            &&& ends_at_byte(cells, event, event.source->0.byte_end)
            &&& ends_at_column(cells, event, event.source->0.column_end)
        }),
{
    law_events_belong_to_lines(lines, stylesheet);
    law_source_covers_quoted_text(lines, stylesheet, i);
    let event = events::output_events(lines, stylesheet)[i];
    let line = lines[event.line as int];
    let run = choose|run: events::RunView|
        {
            &&& #[trigger] is_run(line.cells, run)
            &&& event == run.event(event.line, line.level, line.sources, stylesheet)
        };
    let start = run.column as int;
    let part = line.cells.subrange(start, start + run.text.len());
    assert forall|k: int| 0 <= k < part.len() implies (#[trigger] part[k]).meta.source is Some by {
        assert(covers(event, start + k));
        assert(part[k] == line.cells[start + k]);
    }
    lemma_max_ends_are_reached(part);
    let a = choose|a: int|
        0 <= a < part.len() && events::source_byte_end((#[trigger] part[a]).meta.source)
            == events::max_byte_end(part);
    let b = choose|b: int|
        0 <= b < part.len() && events::source_display_end((#[trigger] part[b]).meta.source)
            == events::max_display_end(part);
    assert(covers(event, start + a) && part[a] == line.cells[start + a]);
    assert(covers(event, start + b) && part[b] == line.cells[start + b]);
}

/// Whether `cell` shows the very text that it was quoted from: its character is
/// what the bytes of `source` encode at its place.
pub open spec fn shows_source(cell: styled_buffer::StyledChar, source: Seq<u8>) -> bool {
    match cell.meta.source {
        Some(point) => {
            &&& point.byte_start <= point.byte_end <= source.len()
            &&& source.subrange(point.byte_start as int, point.byte_end as int)
                == vstd::utf8::encode_scalar(cell.ch as u32)
        },
        None => true,
    }
}

/// Whether `next` was quoted from behind `cell`.
pub open spec fn quotes_onward(
    cell: styled_buffer::StyledChar,
    next: styled_buffer::StyledChar,
) -> bool {
    match (cell.meta.source, next.meta.source) {
        (Some(point), Some(next)) => point.byte_end <= next.byte_start,
        _ => true,
    }
}

/// One more character is encoded behind the others.
proof fn lemma_encode_push(chars: Seq<char>, ch: char)
    ensures
        vstd::utf8::encode_utf8(chars.push(ch)) == vstd::utf8::encode_utf8(chars)
            + vstd::utf8::encode_scalar(ch as u32),
    decreases chars.len(),
{
    let all = chars.push(ch);
    if chars.len() == 0 {
        assert(all.drop_first() =~= Seq::empty());
        assert(vstd::utf8::encode_utf8(all.drop_first()) =~= Seq::empty());
    } else {
        lemma_encode_push(chars.drop_first(), ch);
        assert(all.drop_first() =~= chars.drop_first().push(ch));
    }
    assert(vstd::utf8::encode_utf8(all) =~= vstd::utf8::encode_utf8(chars)
        + vstd::utf8::encode_scalar(ch as u32));
}

/// A run that shows its source in order shows it all, up to where its last cell
/// was quoted from.
proof fn lemma_run_shows_source(
    cells: Seq<styled_buffer::StyledChar>,
    start: int,
    end: int,
    source: Seq<u8>,
)
    requires
        0 <= start < end <= cells.len(),
        cells[start].meta.source is Some,
        forall|col: int| start < col < end ==> #[trigger] events::extends(cells, start, col),
        forall|col: int| start <= col < end ==> shows_source(#[trigger] cells[col], source),
        forall|col: int, next: int|
            start <= col && next == col + 1 && next < end ==> quotes_onward(
                #[trigger] cells[col],
                #[trigger] cells[next],
            ),
    ensures
        ({
            let part = cells.subrange(start, end);
            let first = cells[start].meta.source->0;
            &&& cells[end - 1].meta.source matches Some(last) && last.byte_end
                == events::max_byte_end(part)
            &&& first.byte_start <= events::max_byte_end(part) <= source.len()
            &&& source.subrange(first.byte_start as int, events::max_byte_end(part) as int)
                == vstd::utf8::encode_utf8(events::chars_of(part))
        }),
    decreases end,
{
    let part = cells.subrange(start, end);
    let before = cells.subrange(start, end - 1);
    let first = cells[start].meta.source->0;
    let last = cells[end - 1];
    assert(part.drop_last() =~= before);
    assert(part.last() == last);
    assert(events::chars_of(part) =~= events::chars_of(before).push(last.ch));
    lemma_encode_push(events::chars_of(before), last.ch);
    if end == start + 1 {
        reveal_with_fuel(events::max_byte_end, 2);
        assert(events::chars_of(before) =~= Seq::empty());
        assert(source.subrange(first.byte_start as int, first.byte_end as int)
            =~= vstd::utf8::encode_utf8(events::chars_of(part)));
    } else {
        lemma_run_shows_source(cells, start, end - 1, source);
        assert(events::extends(cells, start, end - 1));
        assert(quotes_onward(cells[end - 2], cells[end - 1]));
        let point = last.meta.source->0;
        assert(point.byte_start == events::max_byte_end(before));
        assert(source.subrange(first.byte_start as int, point.byte_end as int)
            =~= source.subrange(first.byte_start as int, point.byte_start as int)
            + source.subrange(point.byte_start as int, point.byte_end as int));
    }
}

/// The text of an event is the text of the source at its byte range, as long as
/// its cells show the characters that they were quoted from, each once and in
/// order.  A tab that is shown as several blanks, say, is not shown as itself.
pub proof fn law_quoted_text_is_source_text(
    lines: Seq<renderer::LineView>,
    stylesheet: style::Stylesheet,
    i: int,
    source: Seq<u8>,
)
    requires
        0 <= i < events::output_events(lines, stylesheet).len(),
        events::output_events(lines, stylesheet)[i].source is Some,
        ({
            let event = events::output_events(lines, stylesheet)[i];
            let cells = lines[event.line as int].cells;
            &&& forall|col: int| covers(event, col) ==> shows_source(#[trigger] cells[col], source)
            &&& forall|col: int, next: int|
                covers(event, col) && covers(event, next) && next == col + 1 ==> quotes_onward(
                    #[trigger] cells[col],
                    #[trigger] cells[next],
                )
        }),
    ensures
        ({
            let event = events::output_events(lines, stylesheet)[i];
            let range = event.source->0;
            &&& range.byte_start <= range.byte_end <= source.len()
            &&& source.subrange(range.byte_start as int, range.byte_end as int)
                == vstd::utf8::encode_utf8(event.text)
        }),
{
    law_events_belong_to_lines(lines, stylesheet);
    let event = events::output_events(lines, stylesheet)[i];
    let line = lines[event.line as int];
    let run = choose|run: events::RunView|
        {
            &&& #[trigger] is_run(line.cells, run)
            &&& event == run.event(event.line, line.level, line.sources, stylesheet)
        };
    let start = run.column as int;
    let end = start + run.text.len();
    assert forall|col: int| start <= col < end implies shows_source(
        #[trigger] line.cells[col],
        source,
    ) by {
        assert(covers(event, col));
    }
    assert forall|col: int, next: int|
        start <= col && next == col + 1 && next < end implies quotes_onward(
        #[trigger] line.cells[col],
        #[trigger] line.cells[next],
    ) by {
        assert(covers(event, col) && covers(event, next));
    }
    lemma_run_shows_source(line.cells, start, end, source);
}

/// Whether `next` directly follows `event`: on the same line, in the column
/// where that ends, or at the start of the next line, where that ends its own.
pub open spec fn follows(
    lines: Seq<renderer::LineView>,
    event: events::EventView,
    next: events::EventView,
) -> bool {
    let end = event.column + event.text.len();
    ||| {
        &&& next.line == event.line
        &&& next.column == end
        &&& event.column < end
    }
    ||| {
        &&& next.line == event.line + 1
        &&& next.column == 0
        &&& end == lines[event.line as int].cells.len()
    }
}

/// The events of the first `n` lines follow one another without a gap.
proof fn lemma_events_follow(
    lines: Seq<renderer::LineView>,
    n: nat,
    stylesheet: style::Stylesheet,
)
    requires
        n <= lines.len(),
    ensures
        ({
            let all = events::events_upto(lines, n, stylesheet);
            &&& all.len() == 0 <==> n == 0
            &&& n > 0 ==> all[0].line == 0 && all[0].column == 0
            &&& n > 0 ==> all.last().line == n - 1 && all.last().column + all.last().text.len()
                == lines[n - 1].cells.len()
            &&& forall|i: int, j: int|
                0 <= i && j == i + 1 && j < all.len() ==> follows(
                    lines,
                    #[trigger] all[i],
                    #[trigger] all[j],
                )
        }),
    decreases n,
{
    if n > 0 {
        let before = events::events_upto(lines, (n - 1) as nat, stylesheet);
        let line = lines[n - 1];
        let here = events::line_events(line.cells, (n - 1) as nat, line.level, line.sources, stylesheet);
        let runs = events::runs_from(line.cells, 0);
        let all = events::events_upto(lines, n, stylesheet);
        lemma_events_follow(lines, (n - 1) as nat, stylesheet);
        lemma_runs(line.cells, 0);
        assert(all =~= before + here);
        assert(here.len() > 0);
        assert(here[0].line == n - 1 && here[0].column == 0);
        assert(all.last() == here.last());
        if line.cells.len() > 0 {
            assert(is_run(line.cells, runs.last()));
        }
        assert forall|i: int, j: int| 0 <= i && j == i + 1 && j < all.len() implies follows(
            lines,
            #[trigger] all[i],
            #[trigger] all[j],
        ) by {
            if j < before.len() {
                assert(follows(lines, before[i], before[j]));
            } else if i < before.len() {
                assert(all[i] == before.last());
                assert(all[j] == here[0]);
            } else {
                let a = i - before.len();
                let b = j - before.len();
                assert(all[i] == here[a]);
                assert(all[j] == here[b]);
                assert(is_run(line.cells, runs[a]));
                assert(runs[b].column == runs[a].column + runs[a].text.len());
            }
        }
    }
}

/// The events of an output with any lines start at its first column, end behind
/// its last, and follow one another without a gap in between.
pub proof fn law_events_follow_without_gap(
    lines: Seq<renderer::LineView>,
    stylesheet: style::Stylesheet,
)
    ensures
        ({
            let all = events::output_events(lines, stylesheet);
            &&& all.len() == 0 <==> lines.len() == 0
            &&& lines.len() > 0 ==> all[0].line == 0 && all[0].column == 0
            &&& lines.len() > 0 ==> all.last().line == lines.len() - 1 && all.last().column
                + all.last().text.len() == lines.last().cells.len()
            &&& forall|i: int, j: int|
                0 <= i && j == i + 1 && j < all.len() ==> follows(
                    lines,
                    #[trigger] all[i],
                    #[trigger] all[j],
                )
        }),
{
    lemma_events_follow(lines, lines.len(), stylesheet);
}

/// Events come in reading order: from top to bottom, and on one line from left
/// to right.
pub proof fn law_reading_order(
    lines: Seq<renderer::LineView>,
    stylesheet: style::Stylesheet,
    i: int,
    j: int,
)
    requires
        0 <= i < j < events::output_events(lines, stylesheet).len(),
    ensures
        ({
            let first = events::output_events(lines, stylesheet)[i];
            let second = events::output_events(lines, stylesheet)[j];
            first.line < second.line || (first.line == second.line && first.column
                < second.column)
        }),
    decreases j - i,
{
    let all = events::output_events(lines, stylesheet);
    law_events_follow_without_gap(lines, stylesheet);
    assert(follows(lines, all[j - 1], all[j]));
    law_positions(lines, stylesheet, j - 1);
    if i < j - 1 {
        law_reading_order(lines, stylesheet, i, j - 1);
    }
}

/// Some event stands at `col` of `line`.
pub open spec fn is_covered(all: Seq<events::EventView>, line: int, col: int) -> bool {
    exists|i: int|
        0 <= i < all.len() && (#[trigger] all[i]).line == line && covers(all[i], col)
}

/// Some event stands on `line`.
pub open spec fn is_represented(all: Seq<events::EventView>, line: int) -> bool {
    exists|i: int| 0 <= i < all.len() && (#[trigger] all[i]).line == line
}

/// Some run has a character at `col`.
spec fn in_some_run(runs: Seq<events::RunView>, col: int) -> bool {
    exists|i: int|
        0 <= i < runs.len() && (#[trigger] runs[i]).column <= col < runs[i].column
            + runs[i].text.len()
}

/// Every column from `start` on belongs to a run.
proof fn lemma_runs_cover(cells: Seq<styled_buffer::StyledChar>, start: int, col: int)
    requires
        0 <= start <= col < cells.len(),
    ensures
        in_some_run(events::runs_from(cells, start), col),
    decreases cells.len() - start,
{
    let end = events::run_end(cells, start, start + 1);
    let run = events::run_of(cells, start, end);
    lemma_run_end(cells, start, start + 1);
    let runs = events::runs_from(cells, start);
    let rest = events::runs_from(cells, end);
    assert(runs =~= seq![run] + rest);
    if col < end {
        assert(runs[0] == run);
    } else {
        lemma_runs_cover(cells, end, col);
        let i = choose|i: int|
            0 <= i < rest.len() && (#[trigger] rest[i]).column <= col < rest[i].column
                + rest[i].text.len();
        assert(runs[i + 1] == rest[i]);
    }
}

/// The first `n` lines are covered by their events.
proof fn lemma_events_cover(
    lines: Seq<renderer::LineView>,
    n: nat,
    stylesheet: style::Stylesheet,
    line: int,
    col: int,
)
    requires
        n <= lines.len(),
        0 <= line < n,
    ensures
        is_represented(events::events_upto(lines, n, stylesheet), line),
        0 <= col < lines[line].cells.len() ==> is_covered(
            events::events_upto(lines, n, stylesheet),
            line,
            col,
        ),
    decreases n,
{
    let before = events::events_upto(lines, (n - 1) as nat, stylesheet);
    let last = lines[n - 1];
    let here = events::line_events(last.cells, (n - 1) as nat, last.level, last.sources, stylesheet);
    let all = events::events_upto(lines, n, stylesheet);
    assert(all =~= before + here);
    if line < n - 1 {
        lemma_events_cover(lines, (n - 1) as nat, stylesheet, line, col);
        let i = choose|i: int| 0 <= i < before.len() && (#[trigger] before[i]).line == line;
        assert(all[i] == before[i]);
        if 0 <= col < lines[line].cells.len() {
            let i = choose|i: int|
                0 <= i < before.len() && (#[trigger] before[i]).line == line && covers(
                    before[i],
                    col,
                );
            assert(all[i] == before[i]);
        }
    } else {
        lemma_runs(last.cells, 0);
        assert(all[before.len() as int] == here[0]);
        if 0 <= col < last.cells.len() {
            lemma_runs_cover(last.cells, 0, col);
            let runs = events::runs_from(last.cells, 0);
            let i = choose|i: int|
                0 <= i < runs.len() && (#[trigger] runs[i]).column <= col < runs[i].column
                    + runs[i].text.len();
            assert(all[before.len() + i] == here[i]);
            assert(covers(here[i], col));
        }
    }
}

/// No line and no character is dropped: every line has an event, and every
/// column of it belongs to one.
pub proof fn law_nothing_is_dropped(
    lines: Seq<renderer::LineView>,
    stylesheet: style::Stylesheet,
    line: int,
    col: int,
)
    requires
        0 <= line < lines.len(),
    ensures
        is_represented(events::output_events(lines, stylesheet), line),
        0 <= col < lines[line].cells.len() ==> is_covered(
            events::output_events(lines, stylesheet),
            line,
            col,
        ),
{
    lemma_events_cover(lines, lines.len(), stylesheet, line, col);
}

/// Runs are as long as they can be: of two events that stand next to each other
/// on a line, the first would not accept the first cell of the second.
pub proof fn law_runs_are_maximal(
    lines: Seq<renderer::LineView>,
    stylesheet: style::Stylesheet,
    i: int,
)
    requires
        0 <= i,
        i + 1 < events::output_events(lines, stylesheet).len(),
        events::output_events(lines, stylesheet)[i].line == events::output_events(
            lines,
            stylesheet,
        )[i + 1].line,
    ensures
        ({
            let first = events::output_events(lines, stylesheet)[i];
            let second = events::output_events(lines, stylesheet)[i + 1];
            !events::extends(
                lines[first.line as int].cells,
                first.column as int,
                second.column as int,
            )
        }),
{
    let all = events::output_events(lines, stylesheet);
    law_events_belong_to_lines(lines, stylesheet);
    law_events_follow_without_gap(lines, stylesheet);
    assert(follows(lines, all[i], all[i + 1]));
    law_positions(lines, stylesheet, i + 1);
    law_text_is_not_empty(lines, stylesheet, i + 1);
}

/// Whether the cell `next` continues a run of the cells from `start` to before
/// `end`: it is of the same kind and style as the first, and either neither was
/// quoted, or both were, from one source, and `next` starts neither before the
/// first nor behind the end of all of them.
pub open spec fn continues(
    cells: Seq<styled_buffer::StyledChar>,
    start: int,
    end: int,
    next: styled_buffer::StyledChar,
) -> bool {
    let first = cells[start];
    &&& events::cell_kind(next) == events::cell_kind(first)
    &&& next.style == first.style
    &&& first.meta.source is None <==> next.meta.source is None
    &&& first.meta.source matches Some(from) ==> {
        let point = next.meta.source->0;
        &&& point.source_id == from.source_id
        &&& from.byte_start <= point.byte_start
        &&& exists|col: int|
            start <= col < end && ((#[trigger] cells[col]).meta.source matches Some(reached)
                && point.byte_start <= reached.byte_end)
    }
}

/// A cell extends a run exactly if it continues it.
proof fn lemma_extends_is_continues(
    cells: Seq<styled_buffer::StyledChar>,
    start: int,
    end: int,
)
    requires
        0 <= start < end < cells.len(),
        forall|col: int|
            start <= col < end ==> ((#[trigger] cells[col]).meta.source is Some
                <==> cells[start].meta.source is Some),
    ensures
        events::extends(cells, start, end) <==> continues(cells, start, end, cells[end]),
{
    let part = cells.subrange(start, end);
    assert forall|k: int| 0 <= k < part.len() implies part[k] == #[trigger] cells[start + k] by {}
    lemma_max_ends(part);
    if cells[start].meta.source is Some {
        assert forall|k: int| 0 <= k < part.len() implies (
        #[trigger] part[k]).meta.source is Some by {
            assert(part[k] == cells[start + k]);
        }
        lemma_max_ends_are_reached(part);
        let a = choose|a: int|
            0 <= a < part.len() && events::source_byte_end((#[trigger] part[a]).meta.source)
                == events::max_byte_end(part);
        assert(part[a] == cells[start + a]);
        if continues(cells, start, end, cells[end]) {
            let point = cells[end].meta.source->0;
            let col = choose|col: int|
                start <= col < end && ((#[trigger] cells[col]).meta.source matches Some(reached)
                    && point.byte_start <= reached.byte_end);
            assert(part[col - start] == cells[col]);
        }
    }
}

/// Output is split into events exactly where it has to be: within an event every
/// cell continues the cells before it, and the first cell of the next event on
/// the line does not continue them.
pub proof fn law_events_split_where_they_have_to(
    lines: Seq<renderer::LineView>,
    stylesheet: style::Stylesheet,
    i: int,
)
    requires
        0 <= i < events::output_events(lines, stylesheet).len(),
    ensures
        ({
            let event = events::output_events(lines, stylesheet)[i];
            let cells = lines[event.line as int].cells;
            let start = event.column as int;
            let end = start + event.text.len();
            &&& forall|col: int|
                start < col < end ==> #[trigger] continues(cells, start, col, cells[col])
            &&& start < end < cells.len() ==> !continues(cells, start, end, cells[end])
        }),
{
    law_events_belong_to_lines(lines, stylesheet);
    let event = events::output_events(lines, stylesheet)[i];
    let line = lines[event.line as int];
    let cells = line.cells;
    if cells.len() > 0 {
        let run = choose|run: events::RunView|
            {
                &&& #[trigger] is_run(cells, run)
                &&& event == run.event(event.line, line.level, line.sources, stylesheet)
            };
        let start = run.column as int;
        let end = start + run.text.len();
        assert forall|col: int| start <= col < end implies ((
        #[trigger] cells[col]).meta.source is Some <==> cells[start].meta.source is Some) by {
            if col > start {
                assert(events::extends(cells, start, col));
            }
        }
        assert forall|col: int| start < col < end implies #[trigger] continues(
            cells,
            start,
            col,
            cells[col],
        ) by {
            assert(events::extends(cells, start, col));
            lemma_extends_is_continues(cells, start, col);
        }
        if end < cells.len() {
            lemma_extends_is_continues(cells, start, end);
        }
    }
}

/// `event` in another style.
pub open spec fn in_style(event: events::EventView, style: anstyle::Style) -> events::EventView {
    events::EventView { style, ..event }
}

/// The events of the first `n` lines differ in their styles only.
proof fn lemma_styling(
    lines: Seq<renderer::LineView>,
    n: nat,
    one: style::Stylesheet,
    other: style::Stylesheet,
)
    requires
        n <= lines.len(),
    ensures
        events::events_upto(lines, n, one).len() == events::events_upto(lines, n, other).len(),
        forall|i: int|
            0 <= i < events::events_upto(lines, n, one).len()
                ==> #[trigger] events::events_upto(lines, n, one)[i] == in_style(
                events::events_upto(lines, n, other)[i],
                events::events_upto(lines, n, one)[i].style,
            ),
    decreases n,
{
    if n > 0 {
        lemma_styling(lines, (n - 1) as nat, one, other);
        let line = lines[n - 1];
        let before = events::events_upto(lines, (n - 1) as nat, one);
        assert forall|i: int|
            0 <= i < events::events_upto(lines, n, one).len() implies #[trigger] events::events_upto(
            lines,
            n,
            one,
        )[i] == in_style(
            events::events_upto(lines, n, other)[i],
            events::events_upto(lines, n, one)[i].style,
        ) by {
            if i < before.len() {
                assert(events::events_upto(lines, n, one)[i] == before[i]);
            } else {
                let k = i - before.len();
                assert(events::events_upto(lines, n, one)[i] == events::line_events(
                    line.cells,
                    (n - 1) as nat,
                    line.level,
                    line.sources,
                    one,
                )[k]);
                assert(events::events_upto(lines, n, other)[i] == events::line_events(
                    line.cells,
                    (n - 1) as nat,
                    line.level,
                    line.sources,
                    other,
                )[k]);
            }
        }
    }
}

/// The stylesheet affects nothing but the styles of events: their number, their
/// positions, texts, kinds and sources are the same under any two.
pub proof fn law_styling_only_affects_styles(
    lines: Seq<renderer::LineView>,
    one: style::Stylesheet,
    other: style::Stylesheet,
)
    ensures
        events::output_events(lines, one).len() == events::output_events(lines, other).len(),
        forall|i: int|
            0 <= i < events::output_events(lines, one).len() ==> #[trigger] events::output_events(
                lines,
                one,
            )[i] == in_style(
                events::output_events(lines, other)[i],
                events::output_events(lines, one)[i].style,
            ),
{
    lemma_styling(lines, lines.len(), one, other);
}

/// `n` line breaks.
pub open spec fn line_breaks(n: int) -> Seq<char> {
    Seq::new((if n < 0 { 0 } else { n }) as nat, |i: int| '\n')
}

/// The lowest line that any of `all` stands on.
pub open spec fn last_line(all: Seq<events::EventView>) -> nat
    decreases all.len(),
{
    if all.len() == 0 {
        0
    } else {
        events::larger(last_line(all.drop_last()), all.last().line)
    }
}

/// The text that can be rebuilt from events alone: their texts, with line
/// breaks wherever an event stands on a lower line than those before it.
pub open spec fn reconstruct(all: Seq<events::EventView>) -> Seq<char>
    decreases all.len(),
{
    if all.len() == 0 {
        Seq::empty()
    } else {
        let before = all.drop_last();
        reconstruct(before) + line_breaks(all.last().line - last_line(before)) + all.last().text
    }
}

/// The texts of `all`, one behind the other.
spec fn concat_texts(all: Seq<events::EventView>) -> Seq<char>
    decreases all.len(),
{
    if all.len() == 0 {
        Seq::empty()
    } else {
        concat_texts(all.drop_last()) + all.last().text
    }
}

proof fn lemma_concat_texts_add(a: Seq<events::EventView>, b: Seq<events::EventView>)
    ensures
        concat_texts(a + b) == concat_texts(a) + concat_texts(b),
    decreases b.len(),
{
    if b.len() == 0 {
        assert(a + b =~= a);
    } else {
        lemma_concat_texts_add(a, b.drop_last());
        assert((a + b).drop_last() =~= a + b.drop_last());
    }
    assert(concat_texts(a + b) =~= concat_texts(a) + concat_texts(b));
}

/// The texts of the runs of a line make up the line.
proof fn lemma_runs_text(
    cells: Seq<styled_buffer::StyledChar>,
    start: int,
    line: nat,
    level: style::Level,
    sources: Seq<Option<Seq<char>>>,
    stylesheet: style::Stylesheet,
)
    requires
        0 <= start <= cells.len(),
    ensures
        concat_texts(
            events::events_of(events::runs_from(cells, start), line, level, sources, stylesheet),
        ) == events::chars_of(cells.skip(start)),
    decreases cells.len() - start,
{
    let all = events::events_of(
        events::runs_from(cells, start),
        line,
        level,
        sources,
        stylesheet,
    );
    if start < cells.len() {
        let end = events::run_end(cells, start, start + 1);
        let run = events::run_of(cells, start, end);
        lemma_run_end(cells, start, start + 1);
        lemma_runs_text(cells, end, line, level, sources, stylesheet);
        let rest = events::events_of(
            events::runs_from(cells, end),
            line,
            level,
            sources,
            stylesheet,
        );
        let first = seq![run.event(line, level, sources, stylesheet)];
        assert(all =~= first + rest);
        lemma_concat_texts_add(first, rest);
        assert(first.drop_last() =~= Seq::empty());
        assert(concat_texts(first) =~= run.text) by {
            reveal_with_fuel(concat_texts, 2);
        }
        assert(events::chars_of(cells.skip(start)) =~= run.text + events::chars_of(
            cells.skip(end),
        ));
    } else {
        assert(all =~= Seq::empty());
        assert(events::chars_of(cells.skip(start)) =~= Seq::empty());
    }
}

/// The events of one line, behind those of higher lines.
proof fn lemma_reconstruct_line(
    before: Seq<events::EventView>,
    here: Seq<events::EventView>,
    line: nat,
)
    requires
        here.len() > 0,
        last_line(before) <= line,
        forall|i: int| 0 <= i < here.len() ==> (#[trigger] here[i]).line == line,
    ensures
        last_line(before + here) == line,
        reconstruct(before + here) == reconstruct(before) + line_breaks(line - last_line(before))
            + concat_texts(here),
    decreases here.len(),
{
    let all = before + here;
    assert(all.drop_last() =~= before + here.drop_last());
    assert(all.last() == here.last());
    if here.len() == 1 {
        assert(before + here.drop_last() =~= before);
        assert(concat_texts(here) =~= here.last().text) by {
            reveal_with_fuel(concat_texts, 2);
            assert(here.drop_last() =~= Seq::empty());
        }
    } else {
        lemma_reconstruct_line(before, here.drop_last(), line);
        assert(line_breaks(0) =~= Seq::empty());
    }
    assert(reconstruct(all) =~= reconstruct(before) + line_breaks(line - last_line(before))
        + concat_texts(here));
}

/// The characters of each line.
pub open spec fn visible_texts(lines: Seq<renderer::LineView>) -> Seq<Seq<char>> {
    Seq::new(lines.len(), |i: int| events::chars_of(lines[i].cells))
}

proof fn lemma_reconstruct(lines: Seq<renderer::LineView>, n: nat, stylesheet: style::Stylesheet)
    requires
        n <= lines.len(),
    ensures
        last_line(events::events_upto(lines, n, stylesheet)) == if n == 0 {
            0
        } else {
            (n - 1) as nat
        },
        reconstruct(events::events_upto(lines, n, stylesheet)) == text::join_lines(
            visible_texts(lines).take(n as int),
        ),
    decreases n,
{
    if n > 0 {
        let before = events::events_upto(lines, (n - 1) as nat, stylesheet);
        let line = lines[n - 1];
        let here = events::line_events(line.cells, (n - 1) as nat, line.level, line.sources, stylesheet);
        lemma_reconstruct(lines, (n - 1) as nat, stylesheet);
        lemma_runs(line.cells, 0);
        lemma_reconstruct_line(before, here, (n - 1) as nat);
        text::lemma_join_lines_next(visible_texts(lines), n - 1);
        assert(concat_texts(here) =~= events::chars_of(line.cells)) by {
            if line.cells.len() > 0 {
                lemma_runs_text(line.cells, 0, (n - 1) as nat, line.level, line.sources, stylesheet);
                assert(line.cells.skip(0) =~= line.cells);
            } else {
                reveal_with_fuel(concat_texts, 2);
                assert(here.drop_last() =~= Seq::empty());
            }
        }
        if n == 1 {
            assert(line_breaks(0) =~= Seq::empty());
            assert(before =~= Seq::empty());
        } else {
            assert(line_breaks(1) =~= seq!['\n']);
        }
        assert(reconstruct(events::events_upto(lines, n, stylesheet)) =~= text::join_lines(
            visible_texts(lines).take(n as int),
        ));
    } else {
        assert(visible_texts(lines).take(0) =~= Seq::empty());
    }
}

/// A cell that resolves to a plain style, in a line of such cells, is written as
/// its character.
proof fn lemma_plain_cells(
    row: Seq<styled_buffer::StyledChar>,
    n: nat,
    level: style::Level,
    stylesheet: style::Stylesheet,
)
    requires
        n <= row.len(),
        stylesheet.plain_styles(),
    ensures
        styled_buffer::cells_text(row, n, level, stylesheet) == events::chars_of(
            row.take(n as int),
        ),
    decreases n,
{
    if n > 0 {
        lemma_plain_cells(row, (n - 1) as nat, level, stylesheet);
        let before = styled_buffer::style_before(row, n - 1, level, stylesheet);
        let style = stylesheet.style_of(level, row[n - 1].style);
        assert(terminal::is_plain(before) && terminal::is_plain(style));
        assert(styled_buffer::cell_text(row, n - 1, level, stylesheet) =~= seq![row[n - 1].ch]);
    }
    assert(styled_buffer::cells_text(row, n, level, stylesheet) =~= events::chars_of(
        row.take(n as int),
    ));
}

/// Rendered with plain styles, every line is written as its characters and
/// nothing else.
pub proof fn law_plain_text_is_visible_text(
    lines: Seq<renderer::LineView>,
    plain: style::Stylesheet,
)
    requires
        plain.plain_styles(),
    ensures
        renderer::output_texts(lines, plain) == visible_texts(lines),
{
    assert forall|i: int| 0 <= i < lines.len() implies renderer::output_texts(lines, plain)[i]
        == visible_texts(lines)[i] by {
        let row = lines[i].cells;
        lemma_plain_cells(row, row.len(), lines[i].level, plain);
        assert(row.take(row.len() as int) =~= row);
        assert(terminal::is_plain(
            styled_buffer::style_before(row, row.len() as int, lines[i].level, plain),
        ));
        assert(renderer::output_texts(lines, plain)[i] =~= events::chars_of(row));
    }
    assert(renderer::output_texts(lines, plain) =~= visible_texts(lines));
}

/// `chars` with one of `gaps` before each of them.
pub open spec fn woven(gaps: Seq<Seq<char>>, chars: Seq<char>) -> Seq<char>
    decreases chars.len(),
{
    if chars.len() == 0 {
        Seq::empty()
    } else {
        woven(gaps, chars.drop_last()) + gaps[chars.len() - 1] + seq![chars.last()]
    }
}

/// What leaves the style `from`: nothing if it displays as nothing, else the
/// reset sequence.
pub open spec fn leaving(from: anstyle::Style) -> Seq<char> {
    if terminal::style_escape(from).len() == 0 {
        Seq::empty()
    } else {
        seq!['\x1b', '[', '0', 'm']
    }
}

/// The style of the cell before `col`, or that of the start of a line.
pub open spec fn left_style(
    row: Seq<styled_buffer::StyledChar>,
    level: style::Level,
    stylesheet: style::Stylesheet,
    col: int,
) -> anstyle::Style {
    if col == 0 {
        stylesheet.none
    } else {
        stylesheet.style_of(level, row[col - 1].style)
    }
}

/// `woven` looks at no gap behind the last character.
proof fn lemma_woven_ignores_rest(gaps: Seq<Seq<char>>, gap: Seq<char>, chars: Seq<char>)
    requires
        chars.len() <= gaps.len(),
    ensures
        woven(gaps.push(gap), chars) == woven(gaps, chars),
    decreases chars.len(),
{
    if chars.len() > 0 {
        lemma_woven_ignores_rest(gaps, gap, chars.drop_last());
    }
}

/// The first `n` cells of a row are woven from their characters and switches.
proof fn lemma_cells_are_woven(
    row: Seq<styled_buffer::StyledChar>,
    n: nat,
    level: style::Level,
    stylesheet: style::Stylesheet,
) -> (switches: Seq<Seq<char>>)
    requires
        n <= row.len(),
    ensures
        switches.len() == n,
        styled_buffer::cells_text(row, n, level, stylesheet) == woven(
            switches,
            events::chars_of(row.take(n as int)),
        ),
        forall|i: int|
            0 <= i < n ==> {
                let from = left_style(row, level, stylesheet, i);
                let to = stylesheet.style_of(level, row[i].style);
                #[trigger] switches[i] == if from == to {
                    Seq::empty()
                } else {
                    leaving(from) + terminal::style_escape(to)
                }
            },
    decreases n,
{
    if n == 0 {
        Seq::empty()
    } else {
        let before = lemma_cells_are_woven(row, (n - 1) as nat, level, stylesheet);
        let from = left_style(row, level, stylesheet, n - 1);
        let to = stylesheet.style_of(level, row[n - 1].style);
        let switch: Seq<char> = if from == to {
            Seq::empty()
        } else {
            leaving(from) + terminal::style_escape(to)
        };
        let chars = events::chars_of(row.take(n as int));
        assert(chars.drop_last() =~= events::chars_of(row.take(n - 1)));
        lemma_woven_ignores_rest(before, switch, chars.drop_last());
        assert(terminal::reset_sequence() =~= seq!['\x1b', '[', '0', 'm']);
        assert(styled_buffer::cell_text(row, n - 1, level, stylesheet) =~= switch + seq![
            row[n - 1].ch,
        ]);
        assert(styled_buffer::cells_text(row, n, level, stylesheet) =~= woven(
            before.push(switch),
            chars,
        ));
        before.push(switch)
    }
}

/// Under any stylesheet a line shows its characters, every one and no other: it is
/// written as just them, with a switch of styles before each and the reset of
/// the last style at the end.  A switch is empty between cells of the same
/// terminal style; else it leaves the one and enters the other.  So without the
/// switches, colored text is plain text.
pub proof fn law_styled_row_shows_every_character(
    row: Seq<styled_buffer::StyledChar>,
    level: style::Level,
    stylesheet: style::Stylesheet,
) -> (switches: Seq<Seq<char>>)
    ensures
        switches.len() == row.len(),
        styled_buffer::row_text(row, level, stylesheet) == woven(
            switches,
            Seq::new(row.len(), |i: int| row[i].ch),
        ) + leaving(left_style(row, level, stylesheet, row.len() as int)),
        forall|i: int|
            0 <= i < row.len() ==> {
                let from = left_style(row, level, stylesheet, i);
                let to = stylesheet.style_of(level, row[i].style);
                #[trigger] switches[i] == if from == to {
                    Seq::empty()
                } else {
                    leaving(from) + terminal::style_escape(to)
                }
            },
{
    let switches = lemma_cells_are_woven(row, row.len(), level, stylesheet);
    assert(row.take(row.len() as int) =~= row);
    assert(events::chars_of(row) =~= Seq::new(row.len(), |i: int| row[i].ch));
    assert(terminal::reset_sequence() =~= seq!['\x1b', '[', '0', 'm']);
    switches
}

/// Every line of the output is written, each in the styles of its own group's
/// level, and so is every line of a single buffer.
pub proof fn law_every_line_is_written(
    lines: Seq<renderer::LineView>,
    rows: Seq<Seq<styled_buffer::StyledChar>>,
    level: style::Level,
    stylesheet: style::Stylesheet,
)
    ensures
        renderer::output_texts(lines, stylesheet).len() == lines.len(),
        forall|i: int|
            0 <= i < lines.len() ==> #[trigger] renderer::output_texts(lines, stylesheet)[i]
                == styled_buffer::row_text(lines[i].cells, lines[i].level, stylesheet),
        styled_buffer::row_texts(rows, level, stylesheet).len() == rows.len(),
        forall|i: int|
            0 <= i < rows.len() ==> #[trigger] styled_buffer::row_texts(rows, level, stylesheet)[i]
                == styled_buffer::row_text(rows[i], level, stylesheet),
{
}

/// The lines of a group stand below those of the groups before it: all of them,
/// in their order, with the cells, the level and the sources of the group.
pub proof fn law_groups_stand_one_below_the_other(
    groups: Seq<renderer::RenderedGroup>,
    g: int,
    i: int,
)
    requires
        0 <= g < groups.len(),
    ensures
        renderer::lines_of(groups.take(0)).len() == 0,
        renderer::lines_of(groups.take(g + 1)).len() == renderer::lines_of(groups.take(g)).len()
            + groups[g].buffer@.lines.len(),
        renderer::lines_of(groups.take(groups.len() as int)) == renderer::lines_of(groups),
        0 <= i < groups[g].buffer@.lines.len() ==> {
            let line = renderer::lines_of(groups)[renderer::lines_of(groups.take(g)).len() + i];
            &&& line.cells == groups[g].buffer@.lines[i]
            &&& line.level == groups[g].level
            &&& line.sources == groups[g].buffer@.sources
        },
{
    renderer::lemma_group_lines(groups, g);
    assert(groups.take(0).len() == 0);
    assert(groups.take(groups.len() as int) =~= groups);
    if 0 <= i < groups[g].buffer@.lines.len() {
        assert(renderer::lines_of(groups)[renderer::lines_of(groups.take(g)).len() + i]
            == groups[g]@[i]);
    }
}

/// A line that ends in a style other than a plain one is written with the reset
/// sequence at its end, so that no style reaches beyond its line.
pub proof fn law_styled_row_ends_in_reset(
    row: Seq<styled_buffer::StyledChar>,
    level: style::Level,
    stylesheet: style::Stylesheet,
)
    requires
        row.len() > 0,
        !terminal::is_plain(stylesheet.style_of(level, row.last().style)),
    ensures
        terminal::reset_sequence().is_suffix_of(styled_buffer::row_text(row, level, stylesheet)),
{
    let text = styled_buffer::row_text(row, level, stylesheet);
    let cells = styled_buffer::cells_text(row, row.len(), level, stylesheet);
    let reset = terminal::reset_sequence();
    assert(text =~= cells + reset);
    assert(text.subrange(text.len() - reset.len(), text.len() as int) =~= reset);
}

/// No character is dropped or invented: from the events, under whatever
/// stylesheet, the exact text can be rebuilt that rendering with plain styles
/// gives.
pub proof fn law_events_reconstruct_rendered_text(
    lines: Seq<renderer::LineView>,
    stylesheet: style::Stylesheet,
    plain: style::Stylesheet,
)
    requires
        plain.plain_styles(),
    ensures
        reconstruct(events::output_events(lines, stylesheet)) == text::join_lines(
            renderer::output_texts(lines, plain),
        ),
{
    lemma_reconstruct(lines, lines.len(), stylesheet);
    law_plain_text_is_visible_text(lines, plain);
    assert(visible_texts(lines).take(lines.len() as int) =~= visible_texts(lines));
}

/// A sink receives exactly the events that are returned at once otherwise,
/// behind those that it held before.
pub proof fn law_streaming_matches_batch(
    lines: Seq<renderer::LineView>,
    stylesheet: style::Stylesheet,
    batch: Seq<events::Event>,
    before: Seq<events::Event>,
    after: Seq<events::Event>,
)
    requires
        events::added(Seq::empty(), batch, events::output_events(lines, stylesheet)),
        events::added(before, after, events::output_events(lines, stylesheet)),
    ensures
        after.take(before.len() as int) == before,
        after.len() == before.len() + batch.len(),
        forall|i: int|
            0 <= i < batch.len() ==> (#[trigger] batch[i])@ == after[before.len() + i]@,
{
    assert(after.take(before.len() as int) =~= before);
    assert forall|i: int| 0 <= i < batch.len() implies (#[trigger] batch[i])@ == after[before.len()
        + i]@ by {
        assert(after[before.len() + i]@ == events::output_events(lines, stylesheet)[i]);
    }
}

/// A sink that was empty receives the events of the output and nothing else, in
/// their order.
pub proof fn law_sink_receives_events_in_order(
    lines: Seq<renderer::LineView>,
    stylesheet: style::Stylesheet,
    batch: Seq<events::Event>,
)
    requires
        events::added(Seq::empty(), batch, events::output_events(lines, stylesheet)),
    ensures
        batch.len() == events::output_events(lines, stylesheet).len(),
        forall|i: int|
            0 <= i < batch.len() ==> (#[trigger] batch[i])@ == events::output_events(
                lines,
                stylesheet,
            )[i],
{
}

/// What holds of an event as it is described here holds of its fields.
pub proof fn law_event_is_its_fields(event: events::Event)
    ensures
        event@.line == event.line,
        event@.column == event.column,
        event@.text == event.text@,
        event@.style == event.style,
        event@.kind == event.kind,
        event@.source is Some <==> event.source is Some,
        event.source matches Some(source) ==> {
            let described = event@.source->0;
            &&& described.line == source.line
            &&& described.byte_start == source.byte_range.start
            &&& described.byte_end == source.byte_range.end
            &&& described.column_start == source.column_range.start
            &&& described.column_end == source.column_range.end
            &&& described.path is Some <==> source.path is Some
            &&& source.path matches Some(path) ==> described.path == Some(path@)
        },
{
}

} // verus!
