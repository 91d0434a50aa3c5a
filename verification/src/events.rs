//! Structured rendering events.

use anstyle::Style;
use core::ops::Range;
use vstd::prelude::*;

use crate::renderer;
use crate::renderer::{Rendered, RenderedGroup, Renderer};
use crate::style::{ElementStyle, Level, Stylesheet};
use crate::styled_buffer::{CellSource, CellTag, StyledChar};

verus! {

/// A run of visible text in the rendered output, with everything an editor
/// needs to present it: position, style, semantics, and source provenance.
///
/// Events are emitted in reading order (top to bottom, left to right) and
/// their `text`s concatenate back into the exact string produced by
/// [`Renderer::render`], so no characters are ever dropped or invented.
#[derive(Debug, PartialEq)]
pub struct Event {
    /// 0-based line within the whole rendered output.
    pub line: usize,
    /// 0-based column (in rendered characters) within `line`.
    pub column: usize,
    /// The visible text of this run.
    pub text: String,
    /// The resolved terminal style for this run.
    ///
    /// This is the only part of an `Event` affected by the stylesheet; event
    /// splitting and positions are the same whatever it holds.
    pub style: Style,
    /// What this run represents in the diagnostic.
    pub kind: EventKind,
    /// Where in the original source this run was quoted from.
    ///
    /// Decorative characters (gutters, underlines, labels, elision markers,
    /// suggested replacement text, ...) do not appear in the original source
    /// and always have `None` here.
    pub source: Option<SourceRef>,
}

/// What a run of rendered text represents in the diagnostic.
#[derive(Clone, Copy, Debug, PartialEq, Eq, Structural)]
pub enum EventKind {
    /// A title or its level tag (e.g. `error: ...`).
    Title,
    /// A free-standing message or other unclassified text.
    Text,
    /// A line and column reference (e.g. `src/main.rs:1:15`).
    Origin,
    /// A line number in the gutter.
    LineNumber,
    /// A vertical sidebar bar connecting elements.
    ///
    /// `depth` is `0` for the main gutter; nested multiline annotations draw
    /// their bars at increasing depths.
    Sidebar {
        /// Nesting depth of the bar; `0` is the main gutter.
        depth: usize,
    },
    /// Text quoted from the original source; see [`Event::source`].
    Source,
    /// An annotation underline (e.g. `^^^^`, `----`, multiline frames).
    Underline,
    /// An annotation label.
    Label,
    /// An elision marker for folded-away content (`...`, `…`, `┆`).
    Fold,
    /// Suggested added text or its markers (`+ `, `~`).
    Addition,
    /// Suggested removed text or its markers (`- `).
    Removal,
    /// Other structural separators (file-start arrows, note separators, ...).
    Separator,
}

/// The original source location a rendered [`Event`] was quoted from.
#[derive(Debug, PartialEq, Eq)]
pub struct SourceRef {
    /// The path of the source, if one was provided.
    pub path: Option<String>,
    /// The 1-based line number within the source.
    pub line: usize,
    /// Byte offsets into the source text.
    ///
    /// This is deliberately kept distinct from `column_range`: tabs, wide
    /// characters, and combining characters all make the two disagree.
    pub byte_range: Range<usize>,
    /// 0-based display columns within the source line.
    pub column_range: Range<usize>,
}

impl Clone for SourceRef {
    fn clone(&self) -> (copy: Self)
        ensures
            copy == *self,
    {
        let path = match &self.path {
            Some(path) => Some(path.clone()),
            None => None,
        };
        SourceRef {
            path,
            line: self.line,
            byte_range: Range { start: self.byte_range.start, end: self.byte_range.end },
            column_range: Range { start: self.column_range.start, end: self.column_range.end },
        }
    }
}

impl Clone for Event {
    fn clone(&self) -> (copy: Self)
        ensures
            copy == *self,
    {
        let source = match &self.source {
            Some(source) => Some(source.clone()),
            None => None,
        };
        Event {
            line: self.line,
            column: self.column,
            text: self.text.clone(),
            style: self.style,
            kind: self.kind,
            source,
        }
    }
}

/// What an [`Event`] holds.
pub ghost struct EventView {
    pub line: nat,
    pub column: nat,
    pub text: Seq<char>,
    pub style: Style,
    pub kind: EventKind,
    pub source: Option<SourceRefView>,
}

/// What a [`SourceRef`] holds.
pub ghost struct SourceRefView {
    pub path: Option<Seq<char>>,
    pub line: nat,
    pub byte_start: nat,
    pub byte_end: nat,
    pub column_start: nat,
    pub column_end: nat,
}

impl View for SourceRef {
    type V = SourceRefView;

    open spec fn view(&self) -> SourceRefView {
        SourceRefView {
            path: crate::styled_buffer::optional_text(self.path),
            line: self.line as nat,
            byte_start: self.byte_range.start as nat,
            byte_end: self.byte_range.end as nat,
            column_start: self.column_range.start as nat,
            column_end: self.column_range.end as nat,
        }
    }
}

impl View for Event {
    type V = EventView;

    open spec fn view(&self) -> EventView {
        EventView {
            line: self.line as nat,
            column: self.column as nat,
            text: self.text@,
            style: self.style,
            kind: self.kind,
            source: match self.source {
                Some(source) => Some(source@),
                None => None,
            },
        }
    }
}

/// Whether `after` is `before` with `events` added behind it.
pub open spec fn added(before: Seq<Event>, after: Seq<Event>, events: Seq<EventView>) -> bool {
    &&& after.len() == before.len() + events.len()
    &&& forall|i: int| 0 <= i < before.len() ==> after[i] == before[i]
    &&& forall|i: int|
        before.len() <= i < after.len() ==> (#[trigger] after[i])@ == events[i - before.len()]
}

/// What a cell represents: what its tag says, else what its style says, where
/// suggestions take precedence over quoted source text, and that over the rest.
pub open spec fn cell_kind(ch: StyledChar) -> EventKind {
    match ch.meta.tag {
        CellTag::Fold => EventKind::Fold,
        CellTag::Sidebar { depth } => EventKind::Sidebar { depth },
        CellTag::LineNumber => EventKind::LineNumber,
        CellTag::Separator => EventKind::Separator,
        CellTag::Untagged | CellTag::Suggestion => if ch.style == ElementStyle::Addition {
            EventKind::Addition
        } else if ch.style == ElementStyle::Removal {
            EventKind::Removal
        } else if ch.meta.source is Some {
            EventKind::Source
        } else {
            style_kind(ch.style)
        },
    }
}

/// What a cell without a tag and without a source represents.
pub open spec fn style_kind(style: ElementStyle) -> EventKind {
    match style {
        ElementStyle::Addition => EventKind::Addition,
        ElementStyle::Removal => EventKind::Removal,
        ElementStyle::UnderlinePrimary | ElementStyle::UnderlineSecondary => EventKind::Underline,
        ElementStyle::LabelPrimary | ElementStyle::LabelSecondary => EventKind::Label,
        ElementStyle::Level(_)
        | ElementStyle::MainHeaderMsg
        | ElementStyle::HeaderMsg => EventKind::Title,
        ElementStyle::LineAndColumn => EventKind::Origin,
        ElementStyle::LineNumber => EventKind::Separator,
        ElementStyle::Quotation | ElementStyle::NoStyle => EventKind::Text,
    }
}

/// What a cell represents in the diagnostic.
pub fn kind_of(ch: &StyledChar) -> (kind: EventKind)
    ensures
        kind == cell_kind(*ch),
{
    match ch.meta.tag {
        CellTag::Fold => EventKind::Fold,
        CellTag::Sidebar { depth } => EventKind::Sidebar { depth },
        CellTag::LineNumber => EventKind::LineNumber,
        CellTag::Separator => EventKind::Separator,
        CellTag::Untagged | CellTag::Suggestion => match ch.style {
            ElementStyle::Addition => EventKind::Addition,
            ElementStyle::Removal => EventKind::Removal,
            _ if ch.meta.source.is_some() => EventKind::Source,
            ElementStyle::UnderlinePrimary
            | ElementStyle::UnderlineSecondary => EventKind::Underline,
            ElementStyle::LabelPrimary | ElementStyle::LabelSecondary => EventKind::Label,
            ElementStyle::Level(_)
            | ElementStyle::MainHeaderMsg
            | ElementStyle::HeaderMsg => EventKind::Title,
            ElementStyle::LineAndColumn => EventKind::Origin,
            ElementStyle::LineNumber => EventKind::Separator,
            ElementStyle::Quotation | ElementStyle::NoStyle => EventKind::Text,
        },
    }
}

/// Whether a run of `kind` can be part of the original source: quoted text, or
/// text that a suggestion removes.  Everything else is decoration.
pub open spec fn quotes_source(kind: EventKind) -> bool {
    kind is Source || kind is Removal
}

/// A maximal run of characters that belong to the same [`Event`].
pub struct Run {
    column: usize,
    kind: EventKind,
    style: ElementStyle,
    text: String,
    source: Option<usize>,
    byte_end: usize,
    display_end: usize,
    first: Option<CellSource>,
}

/// What a [`Run`] holds.
pub ghost struct RunView {
    /// The column of the first character.
    pub column: nat,
    pub kind: EventKind,
    pub style: ElementStyle,
    pub text: Seq<char>,
    /// Where the first character was quoted from.
    pub first: Option<CellSource>,
    /// The offset behind the last byte that any character was quoted from.
    pub byte_end: nat,
    /// The display column behind the last that any character was quoted from.
    pub display_end: nat,
}

/// The offset behind the source bytes of a cell; `0` where it has none.
pub open spec fn source_byte_end(source: Option<CellSource>) -> nat {
    match source {
        Some(source) => source.byte_end as nat,
        None => 0,
    }
}

/// The column behind the source columns of a cell; `0` where it has none.
pub open spec fn source_display_end(source: Option<CellSource>) -> nat {
    match source {
        Some(source) => source.display_end as nat,
        None => 0,
    }
}

/// The larger of two numbers.
pub open spec fn larger(a: nat, b: nat) -> nat {
    if a < b {
        b
    } else {
        a
    }
}

impl RunView {
    /// A run of the one character `ch` at `column`.
    pub open spec fn starting(column: nat, ch: StyledChar, kind: EventKind) -> RunView {
        RunView {
            column,
            kind,
            style: ch.style,
            text: seq![ch.ch],
            first: ch.meta.source,
            byte_end: source_byte_end(ch.meta.source),
            display_end: source_display_end(ch.meta.source),
        }
    }

    /// Whether `ch` extends the run: same kind and style, and, for quoted
    /// text, the same source and bytes that start within the range covered so
    /// far or directly behind it.
    pub open spec fn accepts(self, ch: StyledChar, kind: EventKind) -> bool {
        &&& kind == self.kind
        &&& ch.style == self.style
        &&& match (self.first, ch.meta.source) {
            (None, None) => true,
            (Some(first), Some(point)) => {
                &&& point.source_id == first.source_id
                &&& first.byte_start <= point.byte_start <= self.byte_end
            },
            _ => false,
        }
    }

    /// The run with one more character; the ranges grow where it was quoted
    /// from `point`.
    pub open spec fn pushed(self, ch: char, point: Option<CellSource>) -> RunView {
        match point {
            Some(point) => RunView {
                text: self.text.push(ch),
                byte_end: larger(self.byte_end, point.byte_end as nat),
                display_end: larger(self.display_end, point.display_end as nat),
                ..self
            },
            None => RunView { text: self.text.push(ch), ..self },
        }
    }

    /// Where the run was quoted from; `None` for decoration.
    pub open spec fn source_ref(self, sources: Seq<Option<Seq<char>>>) -> Option<SourceRefView> {
        match self.first {
            Some(first) if quotes_source(self.kind) => Some(
                SourceRefView {
                    path: if first.source_id < sources.len() {
                        sources[first.source_id as int]
                    } else {
                        None
                    },
                    line: first.line as nat,
                    byte_start: first.byte_start as nat,
                    byte_end: self.byte_end,
                    column_start: first.display_start as nat,
                    column_end: self.display_end,
                },
            ),
            _ => None,
        }
    }

    /// The event that the run makes on `line` of the output.
    pub open spec fn event(
        self,
        line: nat,
        level: Level,
        sources: Seq<Option<Seq<char>>>,
        stylesheet: Stylesheet,
    ) -> EventView {
        EventView {
            line,
            column: self.column,
            text: self.text,
            style: stylesheet.style_of(level, self.style),
            kind: self.kind,
            source: self.source_ref(sources),
        }
    }
}

impl View for Run {
    type V = RunView;

    closed spec fn view(&self) -> RunView {
        RunView {
            column: self.column as nat,
            kind: self.kind,
            style: self.style,
            text: self.text@,
            first: self.first,
            byte_end: self.byte_end as nat,
            display_end: self.display_end as nat,
        }
    }
}

impl Run {
    /// The id of the source is that of the first character.
    pub closed spec fn wf(self) -> bool {
        self.source == match self.first {
            Some(first) => Some(first.source_id),
            None => None,
        }
    }

    /// A run of the one character `ch` at `column`.
    pub fn new(column: usize, ch: &StyledChar, kind: EventKind) -> (run: Self)
        ensures
            run.wf(),
            run@ == RunView::starting(column as nat, *ch, kind),
    {
        let mut text = String::new();
        text.push(ch.ch);
        assert(text@ =~= seq![ch.ch]);
        let point = ch.meta.source;
        match point {
            Some(p) => Run {
                column,
                kind,
                style: ch.style,
                text,
                source: Some(p.source_id),
                byte_end: p.byte_end,
                display_end: p.display_end,
                first: point,
            },
            None => Run {
                column,
                kind,
                style: ch.style,
                text,
                source: None,
                byte_end: 0,
                display_end: 0,
                first: None,
            },
        }
    }

    /// Whether `ch` extends this run: same kind and style, and source
    /// characters that continue the current byte range (expanded characters
    /// like tabs map several glyphs to the same source byte, so a character may
    /// start anywhere from the start of the range to directly behind it).
    pub fn accepts(&self, ch: &StyledChar, kind: EventKind) -> (accepted: bool)
        requires
            self.wf(),
        ensures
            accepted == self@.accepts(*ch, kind),
    {
        if kind != self.kind || ch.style != self.style {
            return false;
        }
        match (self.source, ch.meta.source) {
            (None, None) => true,
            (Some(id), Some(point)) => {
                point.source_id == id && point.byte_start >= self.first.unwrap().byte_start
                    && point.byte_start <= self.byte_end
            },
            _ => false,
        }
    }

    /// Adds `ch`, which was quoted from `point`.
    pub fn push(&mut self, ch: &StyledChar, point: Option<CellSource>)
        requires
            old(self).wf(),
        ensures
            final(self).wf(),
            final(self)@ == old(self)@.pushed(ch.ch, point),
    {
        self.text.push(ch.ch);
        if let Some(point) = point {
            if self.byte_end < point.byte_end {
                self.byte_end = point.byte_end;
            }
            if self.display_end < point.display_end {
                self.display_end = point.display_end;
            }
        }
    }

    /// Adds the event of this run, on `line` of the output, to `sink`.
    pub fn emit(
        self,
        renderer: &Renderer,
        group: &RenderedGroup,
        line: usize,
        sink: &mut Vec<Event>,
    )
        requires
            self.wf(),
        ensures
            added(
                old(sink)@,
                final(sink)@,
                seq![
                    self@.event(
                        line as nat,
                        group.level,
                        group.buffer@.sources,
                        renderer.stylesheet,
                    ),
                ],
            ),
    {
        let quoted = match self.kind {
            EventKind::Source | EventKind::Removal => self.first,
            _ => None,
        };
        let source = match quoted {
            Some(first) => {
                let path = match group.buffer.source_origin(first.source_id) {
                    Some(Some(path)) => Some(path.clone()),
                    _ => None,
                };
                Some(
                    SourceRef {
                        path,
                        line: first.line,
                        byte_range: Range { start: first.byte_start, end: self.byte_end },
                        column_range: Range { start: first.display_start, end: self.display_end },
                    },
                )
            },
            None => None,
        };
        let style = self.style.color_spec(group.level, &renderer.stylesheet);
        sink.push(
            Event { line, column: self.column, text: self.text, style, kind: self.kind, source },
        );
    }
}

/// The characters of `cells`.
pub open spec fn chars_of(cells: Seq<StyledChar>) -> Seq<char> {
    cells.map_values(|cell: StyledChar| cell.ch)
}

/// The offset behind the last source byte of any of `cells`.
pub open spec fn max_byte_end(cells: Seq<StyledChar>) -> nat
    decreases cells.len(),
{
    if cells.len() == 0 {
        0
    } else {
        larger(max_byte_end(cells.drop_last()), source_byte_end(cells.last().meta.source))
    }
}

/// The column behind the last source column of any of `cells`.
pub open spec fn max_display_end(cells: Seq<StyledChar>) -> nat
    decreases cells.len(),
{
    if cells.len() == 0 {
        0
    } else {
        larger(max_display_end(cells.drop_last()), source_display_end(cells.last().meta.source))
    }
}

/// The run of the columns `start..end` of a line.
pub open spec fn run_of(cells: Seq<StyledChar>, start: int, end: int) -> RunView {
    RunView {
        column: start as nat,
        kind: cell_kind(cells[start]),
        style: cells[start].style,
        text: chars_of(cells.subrange(start, end)),
        first: cells[start].meta.source,
        byte_end: max_byte_end(cells.subrange(start, end)),
        display_end: max_display_end(cells.subrange(start, end)),
    }
}

/// Whether the cell at `end` extends the run of the columns `start..end`.
pub open spec fn extends(cells: Seq<StyledChar>, start: int, end: int) -> bool {
    run_of(cells, start, end).accepts(cells[end], cell_kind(cells[end]))
}

/// The column behind the longest run from `start` on, of which the columns
/// before `end` are part.
pub open spec fn run_end(cells: Seq<StyledChar>, start: int, end: int) -> int
    decreases cells.len() - end,
{
    if end < cells.len() && extends(cells, start, end) {
        run_end(cells, start, end + 1)
    } else {
        end
    }
}

/// The runs of a line from column `start` on.
pub open spec fn runs_from(cells: Seq<StyledChar>, start: int) -> Seq<RunView>
    decreases cells.len() - start,
    via runs_from_decreases
{
    if 0 <= start < cells.len() {
        let end = run_end(cells, start, start + 1);
        seq![run_of(cells, start, end)] + runs_from(cells, end)
    } else {
        Seq::empty()
    }
}

#[via_fn]
proof fn runs_from_decreases(cells: Seq<StyledChar>, start: int) {
    if 0 <= start < cells.len() {
        lemma_run_end_bounds(cells, start, start + 1);
    }
}

/// A run ends within the line.
pub proof fn lemma_run_end_bounds(cells: Seq<StyledChar>, start: int, end: int)
    requires
        start < end <= cells.len(),
    ensures
        end <= run_end(cells, start, end) <= cells.len(),
    decreases cells.len() - end,
{
    if end < cells.len() && extends(cells, start, end) {
        lemma_run_end_bounds(cells, start, end + 1);
    }
}

/// The events that `runs` make on `line` of the output.
pub open spec fn events_of(
    runs: Seq<RunView>,
    line: nat,
    level: Level,
    sources: Seq<Option<Seq<char>>>,
    stylesheet: Stylesheet,
) -> Seq<EventView> {
    Seq::new(runs.len(), |i: int| runs[i].event(line, level, sources, stylesheet))
}

/// The event that represents an empty line.
pub open spec fn empty_line_event(line: nat, level: Level, stylesheet: Stylesheet) -> EventView {
    EventView {
        line,
        column: 0,
        text: Seq::empty(),
        style: stylesheet.style_of(level, ElementStyle::NoStyle),
        kind: EventKind::Text,
        source: None,
    }
}

/// The events of a line of the output: one for each of its runs, from left to
/// right, or a placeholder where it is empty.
pub open spec fn line_events(
    cells: Seq<StyledChar>,
    line: nat,
    level: Level,
    sources: Seq<Option<Seq<char>>>,
    stylesheet: Stylesheet,
) -> Seq<EventView> {
    if cells.len() == 0 {
        seq![empty_line_event(line, level, stylesheet)]
    } else {
        events_of(runs_from(cells, 0), line, level, sources, stylesheet)
    }
}

/// The events of the first `n` lines of the output, from top to bottom.
pub open spec fn events_upto(
    lines: Seq<renderer::LineView>,
    n: nat,
    stylesheet: Stylesheet,
) -> Seq<EventView>
    decreases n,
{
    if n == 0 {
        Seq::empty()
    } else {
        let line = lines[n - 1];
        events_upto(lines, (n - 1) as nat, stylesheet) + line_events(
            line.cells,
            (n - 1) as nat,
            line.level,
            line.sources,
            stylesheet,
        )
    }
}

/// The events of the whole output.
pub open spec fn output_events(
    lines: Seq<renderer::LineView>,
    stylesheet: Stylesheet,
) -> Seq<EventView> {
    events_upto(lines, lines.len(), stylesheet)
}

/// Adding events twice adds both.
proof fn lemma_added_twice(
    before: Seq<Event>,
    between: Seq<Event>,
    after: Seq<Event>,
    first: Seq<EventView>,
    second: Seq<EventView>,
)
    requires
        added(before, between, first),
        added(between, after, second),
    ensures
        added(before, after, first + second),
{
    assert forall|i: int| before.len() <= i < after.len() implies (#[trigger] after[i])@ == (first
        + second)[i - before.len()] by {
        if i < between.len() {
            assert(after[i] == between[i]);
        }
    }
    assert forall|i: int| 0 <= i < before.len() implies after[i] == before[i] by {
        assert(after[i] == between[i]);
    }
}

/// A run of one column.
proof fn lemma_run_of_one(cells: Seq<StyledChar>, start: int)
    requires
        0 <= start < cells.len(),
    ensures
        run_of(cells, start, start + 1) == RunView::starting(
            start as nat,
            cells[start],
            cell_kind(cells[start]),
        ),
{
    let part = cells.subrange(start, start + 1);
    assert(part.drop_last() =~= Seq::empty());
    assert(chars_of(part) =~= seq![cells[start].ch]);
    reveal_with_fuel(max_byte_end, 2);
    reveal_with_fuel(max_display_end, 2);
}

/// A run with one more column.
proof fn lemma_run_of_next(cells: Seq<StyledChar>, start: int, end: int)
    requires
        0 <= start < end < cells.len(),
    ensures
        run_of(cells, start, end + 1) == run_of(cells, start, end).pushed(
            cells[end].ch,
            cells[end].meta.source,
        ),
{
    let part = cells.subrange(start, end + 1);
    assert(part.drop_last() =~= cells.subrange(start, end));
    assert(chars_of(part) =~= chars_of(cells.subrange(start, end)).push(cells[end].ch));
}

/// Adds the events of a line to `sink`.
pub fn emit_line(
    renderer: &Renderer,
    group: &RenderedGroup,
    chars: &[StyledChar],
    line: usize,
    sink: &mut Vec<Event>,
)
    ensures
        added(
            old(sink)@,
            final(sink)@,
            line_events(
                chars@,
                line as nat,
                group.level,
                group.buffer@.sources,
                renderer.stylesheet,
            ),
        ),
{
    if chars.len() == 0 {
        // A placeholder, so that every output line is represented and the
        // original text can be reconstructed losslessly.
        let style = ElementStyle::NoStyle.color_spec(group.level, &renderer.stylesheet);
        sink.push(
            Event {
                line,
                column: 0,
                text: String::new(),
                style,
                kind: EventKind::Text,
                source: None,
            },
        );
        return;
    }
    let ghost cells = chars@;
    let ghost level = group.level;
    let ghost sources = group.buffer@.sources;
    let ghost stylesheet = renderer.stylesheet;
    let mut run = Run::new(0, &chars[0], kind_of(&chars[0]));
    let ghost mut done: Seq<RunView> = Seq::empty();
    let ghost mut start: int = 0;
    let mut column: usize = 1;
    proof {
        lemma_run_of_one(cells, 0);
        assert(done + runs_from(cells, start) =~= runs_from(cells, 0));
    }
    while column < chars.len()
        invariant
            cells == chars@,
            level == group.level,
            sources == group.buffer@.sources,
            stylesheet == renderer.stylesheet,
            0 <= start < column <= chars.len(),
            run.wf(),
            run@ == run_of(cells, start, column as int),
            run_end(cells, start, start + 1) == run_end(cells, start, column as int),
            done + runs_from(cells, start) == runs_from(cells, 0),
            added(old(sink)@, sink@, events_of(done, line as nat, level, sources, stylesheet)),
        decreases chars.len() - column,
    {
        let ch = &chars[column];
        let kind = kind_of(ch);
        if run.accepts(ch, kind) {
            proof {
                lemma_run_of_next(cells, start, column as int);
            }
            run.push(ch, ch.meta.source);
        } else {
            let ghost between = sink@;
            run.emit(renderer, group, line, sink);
            proof {
                let next = run_of(cells, start, column as int);
                lemma_added_twice(
                    old(sink)@,
                    between,
                    sink@,
                    events_of(done, line as nat, level, sources, stylesheet),
                    seq![next.event(line as nat, level, sources, stylesheet)],
                );
                assert(done + runs_from(cells, start) =~= done.push(next) + runs_from(
                    cells,
                    column as int,
                ));
                assert(events_of(done.push(next), line as nat, level, sources, stylesheet)
                    =~= events_of(done, line as nat, level, sources, stylesheet) + seq![
                    next.event(line as nat, level, sources, stylesheet),
                ]);
                done = done.push(next);
                start = column as int;
                lemma_run_of_one(cells, start);
            }
            run = Run::new(column, ch, kind);
        }
        column = column + 1;
    }
    let ghost between = sink@;
    run.emit(renderer, group, line, sink);
    proof {
        let next = run_of(cells, start, column as int);
        lemma_added_twice(
            old(sink)@,
            between,
            sink@,
            events_of(done, line as nat, level, sources, stylesheet),
            seq![next.event(line as nat, level, sources, stylesheet)],
        );
        assert(runs_from(cells, column as int) =~= Seq::empty());
        assert(done.push(next) =~= runs_from(cells, 0));
        assert(events_of(runs_from(cells, 0), line as nat, level, sources, stylesheet)
            =~= events_of(done, line as nat, level, sources, stylesheet) + seq![
            next.event(line as nat, level, sources, stylesheet),
        ]);
    }
}

/// Adds the events of the whole output to `sink`, in reading order.
pub fn emit_events(renderer: &Renderer, rendered: &Rendered, sink: &mut Vec<Event>)
    requires
        rendered@.len() <= usize::MAX,
    ensures
        added(old(sink)@, final(sink)@, output_events(rendered@, renderer.stylesheet)),
{
    let ghost lines = rendered@;
    let ghost stylesheet = renderer.stylesheet;
    let mut line_offset: usize = 0;
    let mut g: usize = 0;
    while g < rendered.groups.len()
        invariant
            g <= rendered.groups.len(),
            lines == rendered@,
            lines.len() <= usize::MAX,
            stylesheet == renderer.stylesheet,
            line_offset == renderer::lines_of(rendered.groups@.take(g as int)).len(),
            added(old(sink)@, sink@, events_upto(lines, line_offset as nat, stylesheet)),
        decreases rendered.groups.len() - g,
    {
        let group = &rendered.groups[g];
        proof {
            renderer::lemma_group_lines(rendered.groups@, g as int);
        }
        let num_lines = group.buffer.num_lines();
        let group_lines = group.buffer.lines();
        let ghost rows = group.buffer@.lines;
        assert(rows.len() == group_lines@.len());
        let mut i: usize = 0;
        while i < num_lines
            invariant
                i <= num_lines,
                num_lines == group_lines@.len(),
                rows == group.buffer@.lines,
                rows == group_lines@.map_values(|line: Vec<StyledChar>| line@),
                lines.len() <= usize::MAX,
                stylesheet == renderer.stylesheet,
                line_offset + num_lines <= lines.len(),
                num_lines == group@.len(),
                forall|i: int| 0 <= i < num_lines ==> lines[line_offset + i] == group@[i],
                added(old(sink)@, sink@, events_upto(lines, (line_offset + i) as nat, stylesheet)),
            decreases num_lines - i,
        {
            let ghost between = sink@;
            emit_line(renderer, group, group_lines[i].as_slice(), line_offset + i, sink);
            proof {
                let n = line_offset + i;
                assert(lines[n] == group@[i as int]);
                assert(rows[i as int] == group_lines@[i as int]@);
                lemma_added_twice(
                    old(sink)@,
                    between,
                    sink@,
                    events_upto(lines, n as nat, stylesheet),
                    line_events(
                        lines[n].cells,
                        n as nat,
                        lines[n].level,
                        lines[n].sources,
                        stylesheet,
                    ),
                );
            }
            i = i + 1;
        }
        line_offset = line_offset + num_lines;
        g = g + 1;
    }
    assert(rendered.groups@.take(g as int) =~= rendered.groups@);
}

} // verus!
