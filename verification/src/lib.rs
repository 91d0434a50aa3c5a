//! Structured rendering events for diagnostics.
//!
//! A diagnostic is laid out on a grid of styled cells
//! ([`styled_buffer::StyledBuffer`]).  The same grid can be turned into
//! terminal text or into a stream of [`events::Event`]s, so that consumers
//! like editors can build their own presentation instead of parsing ANSI text
//! back apart.

pub mod buffer_laws;
pub mod events;
pub mod json;
pub mod laws;
pub mod renderer;
pub mod style;
pub mod styled_buffer;
pub mod terminal;
pub mod text;
