//! The grid of styled cells that a diagnostic is laid out on.

use anstyle::Style;
use vstd::prelude::*;

use crate::style::{ElementStyle, Level, Stylesheet};
use crate::terminal;
use crate::text;

verus! {

/// Provenance attached to a single rendered cell.
#[derive(Clone, Copy, Debug, PartialEq, Eq)]
pub struct CellMeta {
    /// The place in the source that this cell was rendered from, if any.
    pub source: Option<CellSource>,
    pub tag: CellTag,
}

/// A place within one of the sources that a [`StyledBuffer`] has registered.
#[derive(Clone, Copy, Debug, PartialEq, Eq)]
pub struct CellSource {
    /// The id that [`StyledBuffer::intern_source`] gave the source.
    pub source_id: usize,
    /// The 1-based line number within the source.
    pub line: usize,
    /// The offset of the first byte of the source text.
    pub byte_start: usize,
    /// The offset behind the last byte of the source text.
    pub byte_end: usize,
    /// The 0-based display column within the source line where the text starts.
    pub display_start: usize,
    /// The display column behind the text.
    pub display_end: usize,
}

/// Semantic role of a cell that cannot be derived from its [`ElementStyle`].
#[derive(Clone, Copy, Debug, PartialEq, Eq)]
pub enum CellTag {
    /// No role beyond what the style says.
    Untagged,
    /// An elision marker such as `...` standing in for hidden source text.
    Fold,
    /// A vertical bar at the given nesting depth; `0` is the main gutter.
    Sidebar { depth: usize },
    /// A line number in the gutter.
    LineNumber,
    /// A structural separator, such as the arrow at the start of a file.
    Separator,
    /// Content of a machine-applicable suggestion block.
    Suggestion,
}

/// A character of the output with its style and provenance.
#[derive(Clone, Copy, Debug, PartialEq, Eq)]
pub struct StyledChar {
    pub ch: char,
    pub style: ElementStyle,
    pub meta: CellMeta,
}

impl Default for CellTag {
    fn default() -> (tag: Self)
        ensures
            tag == CellTag::Untagged,
    {
        CellTag::Untagged
    }
}

impl Default for CellMeta {
    fn default() -> (meta: Self)
        ensures
            meta == CellMeta::spec_none(),
    {
        CellMeta::none()
    }
}

impl CellMeta {
    /// Neither a source nor a role.
    pub open spec fn spec_none() -> Self {
        CellMeta { source: None, tag: CellTag::Untagged }
    }

    /// Neither a source nor a role.
    pub fn none() -> (meta: Self)
        ensures
            meta == Self::spec_none(),
    {
        CellMeta { source: None, tag: CellTag::Untagged }
    }

    /// An elision marker.
    pub fn fold() -> (meta: Self)
        ensures
            meta == (CellMeta { source: None, tag: CellTag::Fold }),
    {
        CellMeta { source: None, tag: CellTag::Fold }
    }

    /// Text quoted from `source`.
    pub fn source(source: CellSource) -> (meta: Self)
        ensures
            meta == (CellMeta { source: Some(source), tag: CellTag::Untagged }),
    {
        CellMeta { source: Some(source), tag: CellTag::Untagged }
    }
}

impl StyledChar {
    /// The cell that fills the gap before text that is put behind the end of a
    /// line.
    pub open spec fn spec_space() -> Self {
        StyledChar { ch: ' ', style: ElementStyle::NoStyle, meta: CellMeta::spec_none() }
    }

    /// An unstyled blank.
    pub fn space() -> (cell: Self)
        ensures
            cell == Self::spec_space(),
    {
        StyledChar::new(' ', ElementStyle::NoStyle)
    }

    /// A cell without provenance.
    pub fn new(ch: char, style: ElementStyle) -> (cell: Self)
        ensures
            cell == (StyledChar { ch, style, meta: CellMeta::spec_none() }),
    {
        StyledChar { ch, style, meta: CellMeta::none() }
    }

    /// A cell with the given provenance.
    pub fn with_meta(ch: char, style: ElementStyle, meta: CellMeta) -> (cell: Self)
        ensures
            cell == (StyledChar { ch, style, meta }),
    {
        StyledChar { ch, style, meta }
    }

    pub fn ch(&self) -> (ch: char)
        ensures
            ch == self.ch,
    {
        self.ch
    }

    pub fn style(&self) -> (style: ElementStyle)
        ensures
            style == self.style,
    {
        self.style
    }

    pub fn meta(&self) -> (meta: CellMeta)
        ensures
            meta == self.meta,
    {
        self.meta
    }
}

/// A grid of styled cells, with the sources that cells can point back into.
#[derive(Debug)]
pub struct StyledBuffer {
    lines: Vec<Vec<StyledChar>>,
    /// Identity of each source that cells can point back into, indexed by
    /// [`CellSource::source_id`].
    sources: Vec<Option<String>>,
    /// Tag stamped on cells written through [`StyledBuffer::putc`],
    /// [`StyledBuffer::puts`], [`StyledBuffer::append`] and
    /// [`StyledBuffer::replace`].
    current_tag: CellTag,
}

/// What a [`StyledBuffer`] holds.
pub ghost struct BufferView {
    /// The cells of each line.
    pub lines: Seq<Seq<StyledChar>>,
    /// The origin path of each registered source, if it has one.
    pub sources: Seq<Option<Seq<char>>>,
    /// The tag of subsequently written cells.
    pub tag: CellTag,
}

/// The view of an optional text.
pub open spec fn optional_text(text: Option<String>) -> Option<Seq<char>> {
    match text {
        Some(text) => Some(text@),
        None => None,
    }
}

/// The view of an optional string slice.
pub open spec fn optional_str(text: Option<&str>) -> Option<Seq<char>> {
    match text {
        Some(text) => Some(text@),
        None => None,
    }
}

/// Whether `id` is where `origin` is registered, of which `before` are the
/// sources registered so far and `after` those registered then: the first place
/// that holds it, or a new one behind the others.
pub open spec fn interned(
    before: Seq<Option<Seq<char>>>,
    origin: Option<Seq<char>>,
    id: int,
    after: Seq<Option<Seq<char>>>,
) -> bool {
    &&& 0 <= id <= before.len()
    &&& forall|i: int| 0 <= i < id ==> before[i] != origin
    &&& if id < before.len() {
        before[id] == origin && after == before
    } else {
        after == before.push(origin)
    }
}

/// `lines` with empty lines added until there is one with the index `line`.
pub open spec fn with_line(lines: Seq<Seq<StyledChar>>, line: int) -> Seq<Seq<StyledChar>> {
    Seq::new(
        (if line < lines.len() { lines.len() as int } else { line + 1 }) as nat,
        |i: int| if i < lines.len() { lines[i] } else { Seq::empty() },
    )
}

/// `row` with `cells` in place of whatever it holds from `col` on for their
/// length, filled up with unstyled blanks where it ends before `col`.
pub open spec fn overwrite(row: Seq<StyledChar>, col: int, cells: Seq<StyledChar>) -> Seq<
    StyledChar,
> {
    let end = col + cells.len();
    Seq::new(
        (if end < row.len() { row.len() as int } else { end }) as nat,
        |i: int|
            if col <= i < end {
                cells[i - col]
            } else if i < row.len() {
                row[i]
            } else {
                StyledChar::spec_space()
            },
    )
}

/// `lines` after `cells` were put on `line` from `col` on.
pub open spec fn put(
    lines: Seq<Seq<StyledChar>>,
    line: int,
    col: int,
    cells: Seq<StyledChar>,
) -> Seq<Seq<StyledChar>> {
    let lines = with_line(lines, line);
    lines.update(line, overwrite(lines[line], col, cells))
}

/// A cell with all its parts.
pub open spec fn styled(ch: char, style: ElementStyle, meta: CellMeta) -> StyledChar {
    StyledChar { ch, style, meta }
}

/// `lines` after the text of `cells` was put on `line` from `col` on; nothing
/// is put for an empty text.
pub open spec fn put_text(
    lines: Seq<Seq<StyledChar>>,
    line: int,
    col: int,
    cells: Seq<StyledChar>,
) -> Seq<Seq<StyledChar>> {
    if cells.len() == 0 {
        lines
    } else {
        put(lines, line, col, cells)
    }
}

/// The column behind the last cell of `line`.
pub open spec fn line_end(lines: Seq<Seq<StyledChar>>, line: int) -> int {
    if line < lines.len() {
        lines[line].len() as int
    } else {
        0
    }
}

/// `cell` in `style`, unless it has a style of its own that is to be kept.
pub open spec fn restyle_cell(cell: StyledChar, style: ElementStyle, overwrite: bool) -> StyledChar {
    if overwrite || cell.style == ElementStyle::NoStyle || cell.style == ElementStyle::Quotation {
        StyledChar { style, ..cell }
    } else {
        cell
    }
}

/// `row` with the cells in the columns `col_start..col_end` restyled.
pub open spec fn restyle_row(
    row: Seq<StyledChar>,
    col_start: int,
    col_end: int,
    style: ElementStyle,
    overwrite: bool,
) -> Seq<StyledChar> {
    Seq::new(
        row.len(),
        |col: int|
            if col_start <= col < col_end {
                restyle_cell(row[col], style, overwrite)
            } else {
                row[col]
            },
    )
}

/// `lines` with the cells in the columns `col_start..col_end` of `line`
/// restyled, as far as they exist.
pub open spec fn restyle(
    lines: Seq<Seq<StyledChar>>,
    line: int,
    col_start: int,
    col_end: int,
    style: ElementStyle,
    overwrite: bool,
) -> Seq<Seq<StyledChar>> {
    if line < lines.len() {
        lines.update(line, restyle_row(lines[line], col_start, col_end, style, overwrite))
    } else {
        lines
    }
}

/// `lines` with the columns `col_start..col_end` of `line` restyled; nothing is
/// restyled unless they all exist.
pub open spec fn restyle_range(
    lines: Seq<Seq<StyledChar>>,
    line: int,
    col_start: int,
    col_end: int,
    style: ElementStyle,
    overwrite: bool,
) -> Seq<Seq<StyledChar>> {
    if line < lines.len() && col_end <= lines[line].len() {
        restyle(lines, line, col_start, col_end, style, overwrite)
    } else {
        lines
    }
}

/// One cell for each character of `string`.
pub open spec fn cells_of(string: Seq<char>, style: ElementStyle, meta: CellMeta) -> Seq<
    StyledChar,
> {
    Seq::new(string.len(), |i: int| styled(string[i], style, meta))
}

/// The provenance of cells that are written without an explicit one.
pub open spec fn tagged(tag: CellTag) -> CellMeta {
    CellMeta { source: None, tag }
}

/// `lines` with `string` in place of the columns `start..end` of `line`, in the
/// style of the gutter; nothing is replaced where the columns do not all exist,
/// or where there are none.
pub open spec fn replaced(
    lines: Seq<Seq<StyledChar>>,
    line: int,
    start: int,
    end: int,
    string: Seq<char>,
    tag: CellTag,
) -> Seq<Seq<StyledChar>> {
    if start == end || end > lines[line].len() || start > lines[line].len() {
        lines
    } else {
        lines.update(
            line,
            lines[line].take(start) + cells_of(string, ElementStyle::LineNumber, tagged(tag))
                + lines[line].skip(end),
        )
    }
}

/// The terminal style that is in force before the cell `col` of `row` is
/// written.
pub open spec fn style_before(
    row: Seq<StyledChar>,
    col: int,
    level: Level,
    stylesheet: Stylesheet,
) -> Style {
    if col <= 0 {
        stylesheet.none
    } else {
        stylesheet.style_of(level, row[col - 1].style)
    }
}

/// What is written for the cell `col` of `row`: the way from the style in force
/// to its own, where the two differ, and its character.
pub open spec fn cell_text(
    row: Seq<StyledChar>,
    col: int,
    level: Level,
    stylesheet: Stylesheet,
) -> Seq<char> {
    let before = style_before(row, col, level, stylesheet);
    let style = stylesheet.style_of(level, row[col].style);
    if style == before {
        seq![row[col].ch]
    } else {
        (terminal::style_reset(before) + terminal::style_escape(style)).push(row[col].ch)
    }
}

/// What is written for the first `n` cells of `row`.
pub open spec fn cells_text(
    row: Seq<StyledChar>,
    n: nat,
    level: Level,
    stylesheet: Stylesheet,
) -> Seq<char>
    decreases n,
{
    if n == 0 {
        Seq::empty()
    } else {
        cells_text(row, (n - 1) as nat, level, stylesheet) + cell_text(
            row,
            n - 1,
            level,
            stylesheet,
        )
    }
}

/// What is written for `row`: its cells, and the reset of the last style.
pub open spec fn row_text(row: Seq<StyledChar>, level: Level, stylesheet: Stylesheet) -> Seq<char> {
    cells_text(row, row.len(), level, stylesheet) + terminal::style_reset(
        style_before(row, row.len() as int, level, stylesheet),
    )
}

/// What is written for each of `lines`.
pub open spec fn row_texts(
    lines: Seq<Seq<StyledChar>>,
    level: Level,
    stylesheet: Stylesheet,
) -> Seq<Seq<char>> {
    Seq::new(lines.len(), |i: int| row_text(lines[i], level, stylesheet))
}

/// Appends what is written for `row` to `out`.
fn render_row(row: &Vec<StyledChar>, level: Level, stylesheet: &Stylesheet, out: &mut String)
    ensures
        final(out)@ == old(out)@ + row_text(row@, level, *stylesheet),
{
    let mut current_style = stylesheet.none;
    let mut col: usize = 0;
    while col < row.len()
        invariant
            col <= row.len(),
            current_style == style_before(row@, col as int, level, *stylesheet),
            out@ == old(out)@ + cells_text(row@, col as nat, level, *stylesheet),
        decreases row.len() - col,
    {
        let cell = row[col];
        let style = cell.style.color_spec(level, stylesheet);
        if !terminal::same_style(style, current_style) {
            let reset = terminal::reset_text(current_style);
            out.push_str(reset.as_str());
            let escape = terminal::escape_text(style);
            out.push_str(escape.as_str());
            current_style = style;
        }
        out.push(cell.ch);
        col = col + 1;
        assert(out@ =~= old(out)@ + cells_text(row@, col as nat, level, *stylesheet));
    }
    let reset = terminal::reset_text(current_style);
    out.push_str(reset.as_str());
    assert(out@ =~= old(out)@ + row_text(row@, level, *stylesheet));
}

/// The cells for `string`.
fn styled_cells(string: &str, style: ElementStyle, meta: CellMeta) -> (cells: Vec<StyledChar>)
    ensures
        cells@ == cells_of(string@, style, meta),
{
    let mut cells: Vec<StyledChar> = Vec::new();
    for ch in iter: string.chars()
        invariant
            iter.seq() == string@,
            cells@.len() == iter.index(),
            forall|i: int| 0 <= i < cells@.len() ==> cells@[i] == styled(string@[i], style, meta),
    {
        cells.push(StyledChar::with_meta(ch, style, meta));
    }
    assert(cells@ =~= cells_of(string@, style, meta));
    cells
}

/// Fills `row` up to a length of at least `len` with unstyled blanks.
fn fill(row: &mut Vec<StyledChar>, len: usize)
    ensures
        final(row)@ == overwrite(old(row)@, len as int, Seq::empty()),
{
    while row.len() < len
        invariant
            old(row)@.len() <= row@.len(),
            row@.len() <= old(row)@.len() || row@.len() <= len,
            forall|i: int|
                0 <= i < row@.len() ==> row@[i] == if i < old(row)@.len() {
                    old(row)@[i]
                } else {
                    StyledChar::spec_space()
                },
        decreases len - row.len(),
    {
        row.push(StyledChar::space());
    }
    assert(row@ =~= overwrite(old(row)@, len as int, Seq::empty()));
}

impl View for StyledBuffer {
    type V = BufferView;

    closed spec fn view(&self) -> BufferView {
        BufferView {
            lines: self.lines@.map_values(|line: Vec<StyledChar>| line@),
            sources: self.sources@.map_values(|source: Option<String>| optional_text(source)),
            tag: self.current_tag,
        }
    }
}

impl StyledBuffer {
    /// An empty buffer.
    pub fn new() -> (buffer: Self)
        ensures
            buffer@ == (BufferView {
                lines: Seq::empty(),
                sources: Seq::empty(),
                tag: CellTag::Untagged,
            }),
    {
        let buffer = StyledBuffer {
            lines: Vec::new(),
            sources: Vec::new(),
            current_tag: CellTag::Untagged,
        };
        assert(buffer@.lines =~= Seq::empty());
        assert(buffer@.sources =~= Seq::empty());
        buffer
    }

    /// Adds empty lines until there is one with the index `line`.
    pub fn ensure_lines(&mut self, line: usize)
        requires
            line < usize::MAX,
        ensures
            final(self)@ == (BufferView { lines: with_line(old(self)@.lines, line as int), ..old(self)@ }),
    {
        let ghost before = self@.lines;
        while self.lines.len() <= line
            invariant
                line < usize::MAX,
                self.sources == old(self).sources,
                self.current_tag == old(self).current_tag,
                before == old(self)@.lines,
                before.len() <= self@.lines.len(),
                self@.lines.len() <= before.len() || self@.lines.len() <= line + 1,
                forall|i: int| 0 <= i < before.len() ==> self.lines@[i]@ == before[i],
                forall|i: int|
                    before.len() <= i < self.lines@.len() ==> self.lines@[i]@ == Seq::<
                        StyledChar,
                    >::empty(),
            decreases line + 1 - self.lines.len(),
        {
            let empty: Vec<StyledChar> = Vec::new();
            assert(empty@ =~= Seq::empty());
            self.lines.push(empty);
        }
        assert(self@.lines =~= with_line(before, line as int));
    }

    /// Registers a source, identified by its origin path if it has one, and
    /// returns the id that [`CellSource::source_id`] refers to.  A source that is
    /// registered already keeps its id.
    pub fn intern_source(&mut self, origin: Option<&str>) -> (id: usize)
        ensures
            interned(
                old(self)@.sources,
                optional_str(origin),
                id as int,
                final(self)@.sources,
            ),
            final(self)@ == (BufferView { sources: final(self)@.sources, ..old(self)@ }),
            old(self)@.sources.no_duplicates() ==> final(self)@.sources.no_duplicates(),
    {
        let mut id: usize = 0;
        while id < self.sources.len()
            invariant
                *self == *old(self),
                id <= self.sources.len(),
                forall|i: int| 0 <= i < id ==> self@.sources[i] != optional_str(origin),
            decreases self.sources.len() - id,
        {
            let known = match (&self.sources[id], origin) {
                (Some(path), Some(origin)) => {
                    let origin = origin.to_owned();
                    *path == origin
                },
                (None, None) => true,
                _ => false,
            };
            assert(self@.sources[id as int] == optional_text(self.sources@[id as int]));
            if known {
                return id;
            }
            id = id + 1;
        }
        let path = match origin {
            Some(origin) => Some(origin.to_owned()),
            None => None,
        };
        self.sources.push(path);
        assert(self@.sources =~= old(self)@.sources.push(optional_str(origin)));
        id
    }

    /// The origin path of a source registered with
    /// [`StyledBuffer::intern_source`].
    pub fn source_origin(&self, source_id: usize) -> (origin: Option<&Option<String>>)
        ensures
            origin is Some <==> source_id < self@.sources.len(),
            origin matches Some(origin) ==> optional_text(*origin) == self@.sources[source_id as int],
    {
        if source_id < self.sources.len() {
            Some(&self.sources[source_id])
        } else {
            None
        }
    }

    /// Sets the [`CellTag`] stamped on subsequently written cells and returns
    /// the previous one.
    pub fn set_tag(&mut self, tag: CellTag) -> (previous: CellTag)
        ensures
            previous == old(self)@.tag,
            final(self)@ == (BufferView { tag, ..old(self)@ }),
    {
        let previous = self.current_tag;
        self.current_tag = tag;
        previous
    }

    /// The lines of cells.
    pub fn lines(&self) -> (lines: &[Vec<StyledChar>])
        ensures
            lines@.map_values(|line: Vec<StyledChar>| line@) == self@.lines,
    {
        self.lines.as_slice()
    }

    pub fn num_lines(&self) -> (n: usize)
        ensures
            n == self@.lines.len(),
    {
        self.lines.len()
    }

    /// Appends the lines as terminal text to `out`: each with the escape
    /// sequences of its styles, and line breaks between them.
    pub fn render(&self, level: Level, stylesheet: &Stylesheet, out: &mut String) -> (result: Result<
        (),
        core::fmt::Error,
    >)
        ensures
            result is Ok,
            final(out)@ == old(out)@ + text::join_lines(row_texts(self@.lines, level, *stylesheet)),
    {
        let ghost texts = row_texts(self@.lines, level, *stylesheet);
        let mut i: usize = 0;
        assert(out@ =~= old(out)@ + text::join_lines(texts.take(0)));
        while i < self.lines.len()
            invariant
                i <= self.lines.len(),
                texts == row_texts(self@.lines, level, *stylesheet),
                out@ == old(out)@ + if 0 < i < self.lines.len() {
                    text::join_lines(texts.take(i as int)).push('\n')
                } else {
                    text::join_lines(texts.take(i as int))
                },
            decreases self.lines.len() - i,
        {
            render_row(&self.lines[i], level, stylesheet, out);
            assert(texts[i as int] == row_text(self.lines@[i as int]@, level, *stylesheet));
            proof {
                text::lemma_join_lines_next(texts, i as int);
            }
            if i != self.lines.len() - 1 {
                out.push('\n');
            }
            i = i + 1;
            assert(out@ =~= old(out)@ + if 0 < i < self.lines.len() {
                text::join_lines(texts.take(i as int)).push('\n')
            } else {
                text::join_lines(texts.take(i as int))
            });
        }
        assert(texts.take(i as int) =~= texts);
        Ok(())
    }

    /// Sets the cell at `line` and `col`, without a source and with the current
    /// tag.  Adds empty lines up to `line` where it does not exist, and fills it
    /// up to `col` with unstyled blanks.
    pub fn putc(&mut self, line: usize, col: usize, chr: char, style: ElementStyle)
        requires
            line < usize::MAX,
            col < usize::MAX,
        ensures
            final(self)@ == (BufferView {
                lines: put(
                    old(self)@.lines,
                    line as int,
                    col as int,
                    seq![styled(chr, style, tagged(old(self)@.tag))],
                ),
                ..old(self)@
            }),
    {
        let meta = CellMeta { source: None, tag: self.current_tag };
        self.putc_meta(line, col, chr, style, meta);
    }

    /// Like [`StyledBuffer::putc`], but with explicit provenance.
    pub fn putc_meta(
        &mut self,
        line: usize,
        col: usize,
        chr: char,
        style: ElementStyle,
        meta: CellMeta,
    )
        requires
            line < usize::MAX,
            col < usize::MAX,
        ensures
            final(self)@ == (BufferView {
                lines: put(
                    old(self)@.lines,
                    line as int,
                    col as int,
                    seq![styled(chr, style, meta)],
                ),
                ..old(self)@
            }),
    {
        self.ensure_lines(line);
        let ghost lines = self@.lines;
        assert(line < lines.len());
        let row = &mut self.lines[line];
        fill(row, col + 1);
        row.set(col, StyledChar::with_meta(chr, style, meta));
        assert(self@.lines =~~= lines.update(
            line as int,
            overwrite(lines[line as int], col as int, seq![styled(chr, style, meta)]),
        ));
    }

    /// Puts `string` on `line` from `col` on, without a source and with the
    /// current tag.  Adds empty lines up to `line` where it does not exist, and
    /// fills it up to `col` with unstyled blanks.  An empty string changes
    /// nothing.
    pub fn puts(&mut self, line: usize, col: usize, string: &str, style: ElementStyle)
        requires
            string@.len() > 0 ==> line < usize::MAX && col + string@.len() <= usize::MAX,
        ensures
            final(self)@ == (BufferView {
                lines: put_text(
                    old(self)@.lines,
                    line as int,
                    col as int,
                    cells_of(string@, style, tagged(old(self)@.tag)),
                ),
                ..old(self)@
            }),
    {
        let meta = CellMeta { source: None, tag: self.current_tag };
        self.puts_meta(line, col, string, style, meta);
    }

    /// Like [`StyledBuffer::puts`], but with explicit provenance.
    pub fn puts_meta(
        &mut self,
        line: usize,
        col: usize,
        string: &str,
        style: ElementStyle,
        meta: CellMeta,
    )
        requires
            string@.len() > 0 ==> line < usize::MAX && col + string@.len() <= usize::MAX,
        ensures
            final(self)@ == (BufferView {
                lines: put_text(
                    old(self)@.lines,
                    line as int,
                    col as int,
                    cells_of(string@, style, meta),
                ),
                ..old(self)@
            }),
    {
        if string.is_empty() {
            // A blank string adds no trailing whitespace from the column offset.
            return;
        }
        self.ensure_lines(line);
        let ghost lines = self@.lines;
        assert(line < lines.len());
        let cells = styled_cells(string, style, meta);
        let row = &mut self.lines[line];
        fill(row, col + cells.len());
        let ghost filled = row@;
        let mut offset: usize = 0;
        while offset < cells.len()
            invariant
                offset <= cells.len(),
                col + cells.len() <= row@.len(),
                col + cells.len() <= usize::MAX,
                row@.len() == filled.len(),
                forall|i: int|
                    0 <= i < row@.len() ==> row@[i] == if col <= i < col + offset {
                        cells@[i - col]
                    } else {
                        filled[i]
                    },
            decreases cells.len() - offset,
        {
            row.set(col + offset, cells[offset]);
            offset = offset + 1;
        }
        assert(row@ =~= overwrite(lines[line as int], col as int, cells@));
        assert(self@.lines =~= put(old(self)@.lines, line as int, col as int, cells@));
    }

    /// Puts `string` behind the old content of `line`, without a source and with
    /// the current tag, adding lines if needed.  An empty string changes nothing.
    pub fn append(&mut self, line: usize, string: &str, style: ElementStyle)
        requires
            string@.len() > 0 ==> line < usize::MAX,
        ensures
            final(self)@ == (BufferView {
                lines: put_text(
                    old(self)@.lines,
                    line as int,
                    line_end(old(self)@.lines, line as int),
                    cells_of(string@, style, tagged(old(self)@.tag)),
                ),
                ..old(self)@
            }),
    {
        if string.is_empty() {
            return;
        }
        self.ensure_lines(line);
        let ghost lines = self@.lines;
        assert(line < lines.len());
        let meta = CellMeta { source: None, tag: self.current_tag };
        let mut cells = styled_cells(string, style, meta);
        let ghost tail = cells@;
        let row = &mut self.lines[line];
        row.append(&mut cells);
        assert(row@ =~= overwrite(lines[line as int], lines[line as int].len() as int, tail));
        assert(self@.lines =~= lines.update(line as int, row@));
    }

    /// Replaces the columns `start..end` of `line` by `string`, in the style of
    /// the gutter.  Does nothing where the columns do not all exist.
    pub fn replace(&mut self, line: usize, start: usize, end: usize, string: &str)
        requires
            start != end ==> line < old(self)@.lines.len() && (start < end || start > old(
                self,
            )@.lines[line as int].len()),
        ensures
            final(self)@ == (BufferView {
                lines: replaced(
                    old(self)@.lines,
                    line as int,
                    start as int,
                    end as int,
                    string@,
                    old(self)@.tag,
                ),
                ..old(self)@
            }),
    {
        if start == end {
            return;
        }
        let len = self.lines[line].len();
        if start > len || end > len {
            return;
        }
        let meta = CellMeta { source: None, tag: self.current_tag };
        let mut cells = styled_cells(string, ElementStyle::LineNumber, meta);
        let row = &mut self.lines[line];
        let mut tail = row.split_off(end);
        row.truncate(start);
        row.append(&mut cells);
        row.append(&mut tail);
        assert(row@ =~= old(self)@.lines[line as int].take(start as int) + cells_of(
            string@,
            ElementStyle::LineNumber,
            meta,
        ) + old(self)@.lines[line as int].skip(end as int));
        assert(self@.lines =~= old(self)@.lines.update(line as int, self@.lines[line as int]));
    }

    /// Sets `style` for the cells in the columns `col_start..col_end` of `line`
    /// if that line and column range exist, for each of them if `overwrite` is
    /// `true` or its style is [`ElementStyle::NoStyle`] or
    /// [`ElementStyle::Quotation`].
    pub fn set_style_range(
        &mut self,
        line: usize,
        col_start: usize,
        col_end: usize,
        style: ElementStyle,
        overwrite: bool,
    )
        ensures
            final(self)@ == (BufferView {
                lines: restyle_range(
                    old(self)@.lines,
                    line as int,
                    col_start as int,
                    col_end as int,
                    style,
                    overwrite,
                ),
                ..old(self)@
            }),
    {
        if line >= self.lines.len() || col_end > self.lines[line].len() {
            return;
        }
        let mut col = col_start;
        assert(self@.lines =~~= restyle(
            self@.lines,
            line as int,
            col as int,
            col as int,
            style,
            overwrite,
        ));
        while col < col_end
            invariant
                col_start <= col,
                col <= col_end || col == col_start,
                self@ == (BufferView {
                    lines: restyle(
                        old(self)@.lines,
                        line as int,
                        col_start as int,
                        col as int,
                        style,
                        overwrite,
                    ),
                    ..old(self)@
                }),
            decreases col_end - col,
        {
            self.set_style(line, col, style, overwrite);
            col = col + 1;
            assert(self@.lines =~~= restyle(
                old(self)@.lines,
                line as int,
                col_start as int,
                col as int,
                style,
                overwrite,
            ));
        }
        assert(self@.lines =~~= restyle(
            old(self)@.lines,
            line as int,
            col_start as int,
            col_end as int,
            style,
            overwrite,
        ));
    }

    /// Sets `style` for the cell at `line` and `col` if it exists, and if
    /// `overwrite` is `true` or its style is [`ElementStyle::NoStyle`] or
    /// [`ElementStyle::Quotation`].
    pub fn set_style(&mut self, line: usize, col: usize, style: ElementStyle, overwrite: bool)
        ensures
            final(self)@ == (BufferView {
                lines: restyle(
                    old(self)@.lines,
                    line as int,
                    col as int,
                    col + 1,
                    style,
                    overwrite,
                ),
                ..old(self)@
            }),
    {
        if line < self.lines.len() && col < self.lines[line].len() {
            let cell = self.lines[line][col];
            if overwrite || cell.style == ElementStyle::NoStyle || cell.style
                == ElementStyle::Quotation {
                let row = &mut self.lines[line];
                row.set(col, StyledChar::with_meta(cell.ch, style, cell.meta));
            }
        }
        assert(self@.lines =~~= restyle(
            old(self)@.lines,
            line as int,
            col as int,
            col + 1,
            style,
            overwrite,
        ));
    }
}

} // verus!
