//! The output of a layout and its renderers.

use vstd::prelude::*;

use crate::events;
use crate::events::Event;
use crate::style::{Level, Stylesheet};
use crate::styled_buffer;
use crate::styled_buffer::{StyledBuffer, StyledChar};
use crate::terminal;
use crate::text;

verus! {

/// One laid out group of a diagnostic.
#[derive(Debug)]
pub struct RenderedGroup {
    /// The level of the group, which its styles depend on.
    pub level: Level,
    pub buffer: StyledBuffer,
}

/// The layout of a whole diagnostic: its groups, one below the other.
#[derive(Debug)]
pub struct Rendered {
    pub groups: Vec<RenderedGroup>,
}

/// Turns a layout into terminal text or into events.
#[derive(Clone, Copy, Debug)]
pub struct Renderer {
    pub stylesheet: Stylesheet,
}

/// A line of the output, with what its group tells of it.
pub ghost struct LineView {
    pub cells: Seq<StyledChar>,
    /// The level of the group that the line belongs to.
    pub level: Level,
    /// The sources that the cells can point back into.
    pub sources: Seq<Option<Seq<char>>>,
}

impl View for RenderedGroup {
    type V = Seq<LineView>;

    open spec fn view(&self) -> Seq<LineView> {
        Seq::new(
            self.buffer@.lines.len(),
            |i: int| group_line(self.buffer@.lines[i], self.level, self.buffer@.sources),
        )
    }
}

/// A line of a group.
pub open spec fn group_line(
    cells: Seq<StyledChar>,
    level: Level,
    sources: Seq<Option<Seq<char>>>,
) -> LineView {
    LineView { cells, level, sources }
}

/// The lines of `groups`, one group below the other.
pub open spec fn lines_of(groups: Seq<RenderedGroup>) -> Seq<LineView>
    decreases groups.len(),
{
    if groups.len() == 0 {
        Seq::empty()
    } else {
        lines_of(groups.drop_last()) + groups.last()@
    }
}

impl View for Rendered {
    type V = Seq<LineView>;

    open spec fn view(&self) -> Seq<LineView> {
        lines_of(self.groups@)
    }
}

/// The lines of the group `g` stand behind those of the groups before it.
pub proof fn lemma_group_lines(groups: Seq<RenderedGroup>, g: int)
    requires
        0 <= g < groups.len(),
    ensures
        lines_of(groups.take(g + 1)) == lines_of(groups.take(g)) + groups[g]@,
        lines_of(groups.take(g + 1)).len() <= lines_of(groups).len(),
        forall|i: int|
            0 <= i < groups[g]@.len() ==> lines_of(groups)[lines_of(groups.take(g)).len() + i]
                == #[trigger] groups[g]@[i],
    decreases groups.len(),
{
    assert(groups.take(g + 1).drop_last() =~= groups.take(g));
    if g + 1 == groups.len() {
        assert(groups.take(g + 1) =~= groups);
    } else {
        lemma_group_lines(groups.drop_last(), g);
        assert(groups.drop_last().take(g) =~= groups.take(g));
        assert(groups.drop_last().take(g + 1) =~= groups.take(g + 1));
    }
}

/// The terminal text of each line of the output.
pub open spec fn output_texts(lines: Seq<LineView>, stylesheet: Stylesheet) -> Seq<Seq<char>> {
    Seq::new(
        lines.len(),
        |i: int| styled_buffer::row_text(lines[i].cells, lines[i].level, stylesheet),
    )
}

impl Renderer {
    /// A renderer of plain text.
    pub fn plain() -> (renderer: Self)
        ensures
            renderer.stylesheet.plain_styles(),
            forall|style: anstyle::Style| #[trigger]
                terminal::is_plain(style) ==> style == renderer.stylesheet.none,
    {
        Renderer { stylesheet: Stylesheet::plain() }
    }

    /// The layout as terminal text.
    pub fn render(&self, rendered: &Rendered) -> (out: String)
        ensures
            out@ == text::join_lines(output_texts(rendered@, self.stylesheet)),
    {
        let mut out = String::new();
        let mut empty = true;
        let mut g: usize = 0;
        let ghost groups = rendered.groups@;
        assert(output_texts(lines_of(groups.take(0)), self.stylesheet) =~= Seq::empty());
        while g < rendered.groups.len()
            invariant
                g <= rendered.groups.len(),
                groups == rendered.groups@,
                empty == (lines_of(groups.take(g as int)).len() == 0),
                out@ == text::join_lines(
                    output_texts(lines_of(groups.take(g as int)), self.stylesheet),
                ),
            decreases rendered.groups.len() - g,
        {
            let group = &rendered.groups[g];
            let ghost upper = output_texts(lines_of(groups.take(g as int)), self.stylesheet);
            let ghost lower = styled_buffer::row_texts(
                group.buffer@.lines,
                group.level,
                self.stylesheet,
            );
            proof {
                lemma_group_lines(groups, g as int);
                text::lemma_join_lines_add(upper, lower);
                assert(output_texts(lines_of(groups.take(g + 1)), self.stylesheet) =~= upper
                    + lower);
            }
            if group.buffer.num_lines() > 0 {
                if !empty {
                    out.push('\n');
                }
                group.buffer.render(group.level, &self.stylesheet, &mut out).unwrap();
                empty = false;
            }
            g = g + 1;
            assert(out@ =~= text::join_lines(upper + lower));
        }
        assert(groups.take(g as int) =~= groups);
        out
    }

    /// The layout as events, in reading order.
    pub fn render_events(&self, rendered: &Rendered) -> (events: Vec<Event>)
        requires
            rendered@.len() <= usize::MAX,
        ensures
            events::added(
                Seq::empty(),
                events@,
                events::output_events(rendered@, self.stylesheet),
            ),
    {
        let mut sink: Vec<Event> = Vec::new();
        self.render_events_with(rendered, &mut sink);
        sink
    }

    /// Adds the events of the layout to `sink`, in reading order.
    pub fn render_events_with(&self, rendered: &Rendered, sink: &mut Vec<Event>)
        requires
            rendered@.len() <= usize::MAX,
        ensures
            events::added(
                old(sink)@,
                final(sink)@,
                events::output_events(rendered@, self.stylesheet),
            ),
    {
        events::emit_events(self, rendered, sink);
    }
}

} // verus!
