//! The boundary to the terminal: what is relied on of `anstyle`.

use anstyle::Style;
use vstd::prelude::*;

verus! {

/// [`anstyle::Style`], which is carried through as an opaque value.
#[verifier::external_type_specification]
#[verifier::external_body]
pub struct ExStyle(anstyle::Style);

/// [`core::fmt::Error`], the error type of text rendering.
#[verifier::external_type_specification]
#[verifier::external_body]
pub struct ExFmtError(core::fmt::Error);

/// The characters that switch a terminal to `style`: what `anstyle::Style`
/// displays as with `{}`.
pub uninterp spec fn style_escape(style: Style) -> Seq<char>;

/// The escape sequence that `anstyle` resets a terminal with.
pub open spec fn reset_sequence() -> Seq<char> {
    seq!['\x1b', '[', '0', 'm']
}

/// A style that leaves the terminal as it is.
pub open spec fn is_plain(style: Style) -> bool {
    style_escape(style).len() == 0
}

/// The characters that switch a terminal back from `style`.
pub open spec fn style_reset(style: Style) -> Seq<char> {
    if is_plain(style) {
        Seq::empty()
    } else {
        reset_sequence()
    }
}

/// `anstyle::Style::new` gives the style without colors and effects, which
/// displays as nothing.  It is the only one that does, as every color and every
/// effect is displayed as some escape sequence.
pub assume_specification[ anstyle::Style::new ]() -> (plain: Style)
    ensures
        is_plain(plain),
        forall|other: Style| #[trigger] is_plain(other) ==> other == plain,
;

/// `anstyle::Style`'s `Display` without flags writes the escape sequences of
/// its effects and colors.  The text is a function of the style alone; which
/// sequence belongs to which effect or color is left unsaid.
#[verifier::external_body]
pub(crate) fn escape_text(style: Style) -> (text: String)
    ensures
        text@ == style_escape(style),
{
    format!("{style}")
}

/// `anstyle::Style`'s `Display` with the alternate flag writes the reset
/// sequence, unless the style is the plain one, which writes nothing in either
/// form.  Every other style has an effect or a color, so it writes something in
/// both.
#[verifier::external_body]
pub(crate) fn reset_text(style: Style) -> (text: String)
    ensures
        text@ == style_reset(style),
{
    format!("{style:#}")
}

/// `==` on `anstyle::Style`, which is derived and compares every field, so it
/// holds of identical styles only.
#[verifier::external_body]
pub(crate) fn same_style(a: Style, b: Style) -> (same: bool)
    ensures
        same == (a == b),
{
    a == b
}

} // verus!
