# snippet_events

A diagnostic is laid out on a grid of styled cells.  This library turns such a
layout into terminal text, or into structured events that an editor can present
in its own way: runs of text with their position, style, meaning, and the place
in the source that they were quoted from.

- `styled_buffer`: the grid, and the operations that a layout writes it with.
- `style`, `terminal`: the elements of a diagnostic, the terminal styles they
  resolve to, and what is relied on of `anstyle`.
- `renderer`: layouts of several groups, as text and as events.
- `events`: the events, and how the cells of a line are split into them.
- `json`: events as JSON.
- `laws`, `buffer_laws`: what holds of the output as a whole, such as that the
  plain text can be rebuilt from the events.

Everything under `src/` is verified with Verus, on the strength of nine trusted
items.  `src/terminal.rs` declares the types `anstyle::Style` and
`core::fmt::Error`, gives a contract to `anstyle::Style::new`, and wraps the two
ways in which a style displays (`escape_text`, whose result is named
`style_escape`, and `reset_text`) and its equality (`same_style`).
`src/text.rs` gives contracts to `String::push` and `String::push_str`.

`app/` hands events to closures and prints them.
