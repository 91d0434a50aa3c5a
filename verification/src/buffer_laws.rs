//! What holds of a buffer across its operations.

use vstd::prelude::*;

use crate::events;
use crate::style;
use crate::styled_buffer;

verus! {

/// What is put on a line can be read back from there; the cells before and
/// behind it, and all other lines, stay as they were, and gaps are filled with
/// unstyled blanks and empty lines.
pub proof fn law_put_reads_back(
    lines: Seq<Seq<styled_buffer::StyledChar>>,
    line: int,
    col: int,
    cells: Seq<styled_buffer::StyledChar>,
)
    requires
        0 <= line,
        0 <= col,
        cells.len() > 0,
    ensures
        ({
            let after = styled_buffer::put_text(lines, line, col, cells);
            &&& line < after.len()
            &&& after[line].subrange(col, col + cells.len()) == cells
            &&& forall|l: int, c: int|
                0 <= l < lines.len() && 0 <= c < lines[l].len() && !(l == line && col <= c < col
                    + cells.len()) ==> c < after[l].len() && #[trigger] after[l][c] == lines[l][c]
            &&& forall|l: int|
                0 <= l < lines.len() && l != line ==> #[trigger] after[l] == lines[l]
            &&& forall|l: int|
                lines.len() <= l < after.len() && l != line ==> (#[trigger] after[l]).len() == 0
            &&& forall|c: int|
                styled_buffer::line_end(lines, line) <= c < col ==> #[trigger] after[line][c]
                    == styled_buffer::StyledChar::spec_space()
        }),
{
    let after = styled_buffer::put_text(lines, line, col, cells);
    assert(after[line].subrange(col, col + cells.len()) =~= cells);
}

/// Writing never removes a line or shortens one.
pub proof fn law_put_never_shrinks(
    lines: Seq<Seq<styled_buffer::StyledChar>>,
    line: int,
    col: int,
    cells: Seq<styled_buffer::StyledChar>,
)
    requires
        0 <= line,
        0 <= col,
    ensures
        ({
            let after = styled_buffer::put_text(lines, line, col, cells);
            &&& lines.len() <= after.len()
            &&& forall|l: int| 0 <= l < lines.len() ==> lines[l].len() <= (#[trigger] after[l]).len()
        }),
{
}

/// Putting a text is the same as putting its characters one by one: the text
/// without its last character, and then that.
pub proof fn law_puts_is_putc_by_putc(
    lines: Seq<Seq<styled_buffer::StyledChar>>,
    line: int,
    col: int,
    cells: Seq<styled_buffer::StyledChar>,
)
    requires
        0 <= line,
        0 <= col,
        cells.len() > 1,
    ensures
        styled_buffer::put_text(lines, line, col, cells) == styled_buffer::put(
            styled_buffer::put_text(lines, line, col, cells.drop_last()),
            line,
            col + cells.len() - 1,
            seq![cells.last()],
        ),
{
    let once = styled_buffer::put_text(lines, line, col, cells);
    let twice = styled_buffer::put(
        styled_buffer::put_text(lines, line, col, cells.drop_last()),
        line,
        col + cells.len() - 1,
        seq![cells.last()],
    );
    assert(once[line] =~= twice[line]);
    assert(once =~= twice);
}

/// Appending leaves a line as it was, with the text behind it.
pub proof fn law_append_extends_line(
    lines: Seq<Seq<styled_buffer::StyledChar>>,
    line: int,
    cells: Seq<styled_buffer::StyledChar>,
)
    requires
        0 <= line,
        cells.len() > 0,
    ensures
        ({
            let after = styled_buffer::put_text(
                lines,
                line,
                styled_buffer::line_end(lines, line),
                cells,
            );
            after[line] == if line < lines.len() {
                lines[line] + cells
            } else {
                cells
            }
        }),
{
    let after = styled_buffer::put_text(lines, line, styled_buffer::line_end(lines, line), cells);
    if line < lines.len() {
        assert(after[line] =~= lines[line] + cells);
    } else {
        assert(after[line] =~= cells);
    }
}

/// `lines` after `string` was appended to `line`.
pub open spec fn appended(
    lines: Seq<Seq<styled_buffer::StyledChar>>,
    line: int,
    string: Seq<char>,
    style: style::ElementStyle,
    meta: styled_buffer::CellMeta,
) -> Seq<Seq<styled_buffer::StyledChar>> {
    styled_buffer::put_text(
        lines,
        line,
        styled_buffer::line_end(lines, line),
        styled_buffer::cells_of(string, style, meta),
    )
}

/// Appending two texts in turn is the same as appending both as one, also where
/// one of them is empty or the line does not exist yet.
pub proof fn law_append_twice(
    lines: Seq<Seq<styled_buffer::StyledChar>>,
    line: int,
    first: Seq<char>,
    second: Seq<char>,
    style: style::ElementStyle,
    meta: styled_buffer::CellMeta,
)
    requires
        0 <= line,
    ensures
        appended(appended(lines, line, first, style, meta), line, second, style, meta) == appended(
            lines,
            line,
            first + second,
            style,
            meta,
        ),
{
    let twice = appended(appended(lines, line, first, style, meta), line, second, style, meta);
    let once = appended(lines, line, first + second, style, meta);
    let head = styled_buffer::cells_of(first, style, meta);
    let tail = styled_buffer::cells_of(second, style, meta);
    assert(styled_buffer::cells_of(first + second, style, meta) =~= head + tail);
    if second.len() == 0 {
        assert(first + second =~= first);
    } else if first.len() == 0 {
        assert(first + second =~= second);
    } else {
        law_append_extends_line(lines, line, head);
        law_append_extends_line(appended(lines, line, first, style, meta), line, tail);
        law_append_extends_line(lines, line, head + tail);
        assert(twice[line] =~= once[line]);
        assert(twice =~= once);
    }
}

/// A text that is written reads back as itself: from the given column on, cell by
/// cell, the line shows its characters, in the given style and with the given
/// provenance.  The line is exactly as long as it has to be, and so is the
/// buffer; what fills a gap is blank, unstyled, and neither quoted nor tagged.
pub proof fn law_written_text_reads_back(
    lines: Seq<Seq<styled_buffer::StyledChar>>,
    line: int,
    col: int,
    string: Seq<char>,
    style: style::ElementStyle,
    meta: styled_buffer::CellMeta,
)
    requires
        0 <= line,
        0 <= col,
        string.len() > 0,
    ensures
        ({
            let cells = styled_buffer::cells_of(string, style, meta);
            let after = styled_buffer::put_text(lines, line, col, cells);
            let old_len: int = if line < lines.len() {
                lines[line].len() as int
            } else {
                0
            };
            &&& cells.len() == string.len()
            &&& after.len() >= lines.len() && after.len() > line
            &&& after.len() == lines.len() || after.len() == line + 1
            &&& after[line].len() >= old_len && after[line].len() >= col + string.len()
            &&& after[line].len() == old_len || after[line].len() == col + string.len()
            &&& forall|c: int|
                col <= c < col + string.len() ==> {
                    &&& (#[trigger] after[line][c]).ch == string[c - col]
                    &&& after[line][c].style == style
                    &&& after[line][c].meta == meta
                }
            &&& forall|c: int|
                old_len <= c < col ==> {
                    &&& (#[trigger] after[line][c]).ch == ' '
                    &&& after[line][c].style is NoStyle
                    &&& after[line][c].meta.source is None
                    &&& after[line][c].meta.tag is Untagged
                }
        }),
{
}

/// A text that is put without an explicit provenance has no source and the tag of
/// the buffer.
pub proof fn law_written_text_is_tagged(tag: styled_buffer::CellTag)
    ensures
        styled_buffer::tagged(tag).source is None,
        styled_buffer::tagged(tag).tag == tag,
        styled_buffer::CellMeta::spec_none().source is None,
        styled_buffer::CellMeta::spec_none().tag is Untagged,
{
}

/// Writing an empty text changes nothing, wherever it is put: it adds neither
/// lines nor blanks.
pub proof fn law_empty_text_changes_nothing(
    lines: Seq<Seq<styled_buffer::StyledChar>>,
    line: int,
    col: int,
    style: style::ElementStyle,
    meta: styled_buffer::CellMeta,
)
    ensures
        styled_buffer::put_text(
            lines,
            line,
            col,
            styled_buffer::cells_of(Seq::empty(), style, meta),
        ) == lines,
        appended(lines, line, Seq::empty(), style, meta) == lines,
{
}

/// A single character is put like a text of that character.
pub proof fn law_character_is_put_like_text(
    lines: Seq<Seq<styled_buffer::StyledChar>>,
    line: int,
    col: int,
    ch: char,
    style: style::ElementStyle,
    meta: styled_buffer::CellMeta,
)
    requires
        0 <= line,
        0 <= col,
    ensures
        ({
            let after = styled_buffer::put(
                lines,
                line,
                col,
                seq![styled_buffer::styled(ch, style, meta)],
            );
            &&& after[line][col].ch == ch
            &&& after[line][col].style == style
            &&& after[line][col].meta == meta
            &&& after == styled_buffer::put_text(
                lines,
                line,
                col,
                styled_buffer::cells_of(seq![ch], style, meta),
            )
        }),
{
    assert(styled_buffer::cells_of(seq![ch], style, meta) =~= seq![
        styled_buffer::styled(ch, style, meta),
    ]);
}

/// An appended text reads back behind what the line held, which stays, and so do
/// all other lines.
pub proof fn law_appended_text_reads_back(
    lines: Seq<Seq<styled_buffer::StyledChar>>,
    line: int,
    string: Seq<char>,
    style: style::ElementStyle,
    meta: styled_buffer::CellMeta,
)
    requires
        0 <= line < lines.len(),
    ensures
        ({
            let after = appended(lines, line, string, style, meta);
            let old_len = lines[line].len() as int;
            &&& after.len() == lines.len()
            &&& after[line].len() == old_len + string.len()
            &&& forall|c: int| 0 <= c < old_len ==> #[trigger] after[line][c] == lines[line][c]
            &&& forall|c: int|
                old_len <= c < old_len + string.len() ==> {
                    &&& (#[trigger] after[line][c]).ch == string[c - old_len]
                    &&& after[line][c].style == style
                    &&& after[line][c].meta == meta
                }
            &&& forall|l: int|
                0 <= l < lines.len() && l != line ==> #[trigger] after[l] == lines[l]
        }),
{
}

/// Adding lines up to an index keeps the lines there are and adds empty ones, no
/// more than it takes.
pub proof fn law_added_lines_are_empty(lines: Seq<Seq<styled_buffer::StyledChar>>, line: int)
    requires
        0 <= line,
    ensures
        ({
            let after = styled_buffer::with_line(lines, line);
            &&& line < lines.len() ==> after == lines
            &&& line >= lines.len() ==> after.len() == line + 1
            &&& forall|l: int| 0 <= l < lines.len() ==> #[trigger] after[l] == lines[l]
            &&& forall|l: int| lines.len() <= l < after.len() ==> (#[trigger] after[l]).len() == 0
        }),
{
    if line < lines.len() {
        assert(styled_buffer::with_line(lines, line) =~= lines);
    }
}

/// Replacing columns puts the text where they were, in the style of the gutter
/// and with the tag of the buffer.  What stood before them stays, what stood
/// behind them moves up to the text, and all other lines stay.
pub proof fn law_replacement_reads_back(
    lines: Seq<Seq<styled_buffer::StyledChar>>,
    line: int,
    start: int,
    end: int,
    string: Seq<char>,
    tag: styled_buffer::CellTag,
)
    requires
        0 <= line < lines.len(),
        0 <= start < end <= lines[line].len(),
    ensures
        ({
            let after = styled_buffer::replaced(lines, line, start, end, string, tag);
            &&& after.len() == lines.len()
            &&& after[line].len() == lines[line].len() - (end - start) + string.len()
            &&& forall|c: int| 0 <= c < start ==> #[trigger] after[line][c] == lines[line][c]
            &&& forall|c: int|
                start <= c < start + string.len() ==> {
                    &&& (#[trigger] after[line][c]).ch == string[c - start]
                    &&& after[line][c].style is LineNumber
                    &&& after[line][c].meta.source is None
                    &&& after[line][c].meta.tag == tag
                }
            &&& forall|c: int|
                start + string.len() <= c < after[line].len() ==> #[trigger] after[line][c]
                    == lines[line][c - string.len() + (end - start)]
            &&& forall|l: int|
                0 <= l < lines.len() && l != line ==> #[trigger] after[l] == lines[l]
        }),
{
}

/// Replacing no columns, or columns that do not all exist, changes nothing.
pub proof fn law_missing_columns_are_not_replaced(
    lines: Seq<Seq<styled_buffer::StyledChar>>,
    line: int,
    start: int,
    end: int,
    string: Seq<char>,
    tag: styled_buffer::CellTag,
)
    requires
        start == end || (0 <= line < lines.len() && (start > lines[line].len() || end
            > lines[line].len())),
    ensures
        styled_buffer::replaced(lines, line, start, end, string, tag) == lines,
{
}

/// Restyling changes nothing but styles: the lines keep their characters and
/// the provenance of each.
pub proof fn law_restyle_keeps_text(
    lines: Seq<Seq<styled_buffer::StyledChar>>,
    line: int,
    col_start: int,
    col_end: int,
    style: style::ElementStyle,
    overwrite: bool,
)
    requires
        0 <= line,
    ensures
        ({
            let after = styled_buffer::restyle(lines, line, col_start, col_end, style, overwrite);
            &&& after.len() == lines.len()
            &&& forall|l: int|
                0 <= l < lines.len() ==> events::chars_of(#[trigger] after[l]) == events::chars_of(
                    lines[l],
                )
            &&& forall|l: int, c: int|
                0 <= l < lines.len() && 0 <= c < lines[l].len() ==> (
                #[trigger] after[l][c]).meta == lines[l][c].meta
        }),
{
    let after = styled_buffer::restyle(lines, line, col_start, col_end, style, overwrite);
    assert forall|l: int| 0 <= l < lines.len() implies events::chars_of(#[trigger] after[l])
        == events::chars_of(lines[l]) by {
        assert(events::chars_of(after[l]) =~= events::chars_of(lines[l]));
    }
}

/// Without `overwrite`, a cell with a style of its own keeps it.
pub proof fn law_restyle_keeps_own_styles(
    lines: Seq<Seq<styled_buffer::StyledChar>>,
    line: int,
    col_start: int,
    col_end: int,
    style: style::ElementStyle,
)
    requires
        0 <= line,
    ensures
        ({
            let after = styled_buffer::restyle(lines, line, col_start, col_end, style, false);
            forall|l: int, c: int|
                0 <= l < lines.len() && 0 <= c < lines[l].len() && !(lines[l][c].style is NoStyle)
                    && !(lines[l][c].style is Quotation) ==> #[trigger] after[l][c] == lines[l][c]
        }),
{
}

/// With `overwrite`, every cell in the columns that exists has the style
/// afterwards, whatever it had before; without it, every one that was unstyled
/// or a quotation has, and every other keeps its own.  The characters, the
/// provenance, and all cells elsewhere stay.
pub proof fn law_restyle_sets_style(
    lines: Seq<Seq<styled_buffer::StyledChar>>,
    line: int,
    col_start: int,
    col_end: int,
    style: style::ElementStyle,
    overwrite: bool,
)
    requires
        0 <= line,
    ensures
        ({
            let after = styled_buffer::restyle(lines, line, col_start, col_end, style, overwrite);
            &&& after.len() == lines.len()
            &&& forall|l: int|
                0 <= l < lines.len() ==> (#[trigger] after[l]).len() == lines[l].len()
            &&& forall|l: int, c: int|
                0 <= l < lines.len() && 0 <= c < lines[l].len() ==> {
                    let was = lines[l][c];
                    let now = #[trigger] after[l][c];
                    let inside = l == line && col_start <= c < col_end;
                    &&& now.ch == was.ch
                    &&& now.meta == was.meta
                    &&& inside && overwrite ==> now.style == style
                    &&& inside && (was.style is NoStyle || was.style is Quotation) ==> now.style
                        == style
                    &&& !overwrite && !(was.style is NoStyle) && !(was.style is Quotation)
                        ==> now.style == was.style
                    &&& !inside ==> now.style == was.style
                }
        }),
{
}

/// A range that exists is restyled like its cells one by one; one that does not
/// exist as a whole is left as it is.
pub proof fn law_restyle_range_is_all_or_nothing(
    lines: Seq<Seq<styled_buffer::StyledChar>>,
    line: int,
    col_start: int,
    col_end: int,
    style: style::ElementStyle,
    overwrite: bool,
)
    requires
        0 <= line,
    ensures
        ({
            let after = styled_buffer::restyle_range(
                lines,
                line,
                col_start,
                col_end,
                style,
                overwrite,
            );
            &&& line >= lines.len() || col_end > lines[line].len() ==> after == lines
            &&& line < lines.len() && col_end <= lines[line].len() ==> after
                == styled_buffer::restyle(lines, line, col_start, col_end, style, overwrite)
        }),
{
}

/// The last style wins: what a range is restyled to with `overwrite` does not
/// depend on what it was restyled to before.
pub proof fn law_last_restyle_wins(
    lines: Seq<Seq<styled_buffer::StyledChar>>,
    line: int,
    col_start: int,
    col_end: int,
    first: style::ElementStyle,
    overwrite: bool,
    last: style::ElementStyle,
)
    requires
        0 <= line,
    ensures
        styled_buffer::restyle(
            styled_buffer::restyle(lines, line, col_start, col_end, first, overwrite),
            line,
            col_start,
            col_end,
            last,
            true,
        ) == styled_buffer::restyle(lines, line, col_start, col_end, last, true),
{
    assert(styled_buffer::restyle(
        styled_buffer::restyle(lines, line, col_start, col_end, first, overwrite),
        line,
        col_start,
        col_end,
        last,
        true,
    ) =~~= styled_buffer::restyle(lines, line, col_start, col_end, last, true));
}

/// Restyling a range that exists is the same as restyling its columns one by
/// one: the range without its last column, and then that.
pub proof fn law_restyle_is_column_by_column(
    lines: Seq<Seq<styled_buffer::StyledChar>>,
    line: int,
    col_start: int,
    col_end: int,
    style: style::ElementStyle,
    overwrite: bool,
)
    requires
        0 <= line < lines.len(),
        col_start < col_end <= lines[line].len(),
    ensures
        styled_buffer::restyle_range(lines, line, col_start, col_end, style, overwrite)
            == styled_buffer::restyle(
            styled_buffer::restyle_range(lines, line, col_start, col_end - 1, style, overwrite),
            line,
            col_end - 1,
            col_end,
            style,
            overwrite,
        ),
{
    assert(styled_buffer::restyle_range(lines, line, col_start, col_end, style, overwrite)
        =~~= styled_buffer::restyle(
        styled_buffer::restyle_range(lines, line, col_start, col_end - 1, style, overwrite),
        line,
        col_end - 1,
        col_end,
        style,
        overwrite,
    ));
}

/// A registered source can be looked up by its id, and ids given out before
/// keep their meaning.  A source that was registered before adds nothing; any
/// other adds itself alone.
pub proof fn law_interned_source_is_found(
    before: Seq<Option<Seq<char>>>,
    origin: Option<Seq<char>>,
    id: int,
    after: Seq<Option<Seq<char>>>,
)
    requires
        styled_buffer::interned(before, origin, id, after),
    ensures
        0 <= id < after.len(),
        after[id] == origin,
        before.len() <= after.len(),
        forall|i: int| 0 <= i < before.len() ==> after[i] == before[i],
        before.contains(origin) ==> after == before,
        !before.contains(origin) ==> id == before.len() && after.len() == before.len() + 1,
{
    if before.contains(origin) && id == before.len() {
        let i = choose|i: int| 0 <= i < before.len() && before[i] == origin;
        assert(before[i] != origin);
    }
}

/// The origin of a source is known as the very text that was given, also where
/// that is empty; only a source without one has none.
pub proof fn law_origin_is_kept(given: Option<&str>, held: Option<String>)
    ensures
        given matches Some(text) ==> styled_buffer::optional_str(given) == Some(text@),
        given is None ==> styled_buffer::optional_str(given) is None,
        held matches Some(text) ==> styled_buffer::optional_text(held) == Some(text@),
        held is None ==> styled_buffer::optional_text(held) is None,
{
}

/// Registering a source again gives the same id and registers nothing.
pub proof fn law_interning_is_idempotent(
    before: Seq<Option<Seq<char>>>,
    origin: Option<Seq<char>>,
    first: int,
    between: Seq<Option<Seq<char>>>,
    second: int,
    after: Seq<Option<Seq<char>>>,
)
    requires
        styled_buffer::interned(before, origin, first, between),
        styled_buffer::interned(between, origin, second, after),
    ensures
        second == first,
        after == between,
{
    assert(between[first] == origin);
    if second < first {
        assert(before[second] != origin);
    }
}

/// Different sources have different ids.
pub proof fn law_interning_tells_sources_apart(
    before: Seq<Option<Seq<char>>>,
    one: Option<Seq<char>>,
    first: int,
    between: Seq<Option<Seq<char>>>,
    other: Option<Seq<char>>,
    second: int,
    after: Seq<Option<Seq<char>>>,
)
    requires
        styled_buffer::interned(before, one, first, between),
        styled_buffer::interned(between, other, second, after),
        one != other,
    ensures
        first != second,
{
    assert(between[first] == one);
}

/// No source is ever registered twice.
pub proof fn law_sources_stay_distinct(
    before: Seq<Option<Seq<char>>>,
    origin: Option<Seq<char>>,
    id: int,
    after: Seq<Option<Seq<char>>>,
)
    requires
        before.no_duplicates(),
        styled_buffer::interned(before, origin, id, after),
    ensures
        after.no_duplicates(),
{
}

} // verus!
