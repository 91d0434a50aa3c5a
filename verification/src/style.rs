//! Elements of a diagnostic and the terminal styles they resolve to.

use anstyle::Style;
use vstd::prelude::*;

use crate::terminal;

verus! {

/// Severity of a group of a diagnostic.
#[derive(Clone, Copy, Debug, PartialEq, Eq, Structural)]
pub enum Level {
    Error,
    Warning,
    Info,
    Note,
    Help,
}

/// The part of a diagnostic that a cell belongs to, which decides its style.
#[derive(Clone, Copy, Debug, PartialEq, Eq, Structural)]
pub enum ElementStyle {
    /// The message of the title of the whole diagnostic.
    MainHeaderMsg,
    /// The message of any other title.
    HeaderMsg,
    /// A reference to a place in a file.
    LineAndColumn,
    /// A line number or another part of the gutter.
    LineNumber,
    /// Text of the source.
    Quotation,
    /// The underline of a primary annotation.
    UnderlinePrimary,
    /// The underline of any other annotation.
    UnderlineSecondary,
    /// The label of a primary annotation.
    LabelPrimary,
    /// The label of any other annotation.
    LabelSecondary,
    /// Text without a style of its own.
    NoStyle,
    /// The tag of a title, such as `error`.
    Level(Level),
    /// Suggested added text.
    Addition,
    /// Suggested removed text.
    Removal,
}

/// One terminal style for each element, within a group of some level.
#[derive(Clone, Copy, Debug)]
pub struct ElementStyles {
    pub main_header_msg: Style,
    pub header_msg: Style,
    pub line_and_column: Style,
    pub line_number: Style,
    pub quotation: Style,
    pub underline_primary: Style,
    pub underline_secondary: Style,
    pub label_primary: Style,
    pub label_secondary: Style,
    pub no_style: Style,
    pub error: Style,
    pub warning: Style,
    pub info: Style,
    pub note: Style,
    pub help: Style,
    pub addition: Style,
    pub removal: Style,
}

/// The terminal styles of a renderer.
#[derive(Clone, Copy, Debug)]
pub struct Stylesheet {
    /// The style that every line of output starts from.
    pub none: Style,
    /// The styles of the elements of an error.
    pub error: ElementStyles,
    /// The styles of the elements of a warning.
    pub warning: ElementStyles,
    /// The styles of the elements of an informational message.
    pub info: ElementStyles,
    /// The styles of the elements of a note.
    pub note: ElementStyles,
    /// The styles of the elements of a help message.
    pub help: ElementStyles,
}

impl ElementStyles {
    /// The same style for all elements.
    pub fn uniform(style: Style) -> (styles: Self)
        ensures
            forall|element: ElementStyle| #[trigger] styles.style_of(element) == style,
    {
        ElementStyles {
            main_header_msg: style,
            header_msg: style,
            line_and_column: style,
            line_number: style,
            quotation: style,
            underline_primary: style,
            underline_secondary: style,
            label_primary: style,
            label_secondary: style,
            no_style: style,
            error: style,
            warning: style,
            info: style,
            note: style,
            help: style,
            addition: style,
            removal: style,
        }
    }

    /// The style of one element.
    pub open spec fn style_of(self, element: ElementStyle) -> Style {
        match element {
            ElementStyle::MainHeaderMsg => self.main_header_msg,
            ElementStyle::HeaderMsg => self.header_msg,
            ElementStyle::LineAndColumn => self.line_and_column,
            ElementStyle::LineNumber => self.line_number,
            ElementStyle::Quotation => self.quotation,
            ElementStyle::UnderlinePrimary => self.underline_primary,
            ElementStyle::UnderlineSecondary => self.underline_secondary,
            ElementStyle::LabelPrimary => self.label_primary,
            ElementStyle::LabelSecondary => self.label_secondary,
            ElementStyle::NoStyle => self.no_style,
            ElementStyle::Level(Level::Error) => self.error,
            ElementStyle::Level(Level::Warning) => self.warning,
            ElementStyle::Level(Level::Info) => self.info,
            ElementStyle::Level(Level::Note) => self.note,
            ElementStyle::Level(Level::Help) => self.help,
            ElementStyle::Addition => self.addition,
            ElementStyle::Removal => self.removal,
        }
    }
}

impl Stylesheet {
    /// The styles of the elements of a group of `level`.
    pub open spec fn for_level(self, level: Level) -> ElementStyles {
        match level {
            Level::Error => self.error,
            Level::Warning => self.warning,
            Level::Info => self.info,
            Level::Note => self.note,
            Level::Help => self.help,
        }
    }

    /// The style of an element in a group of `level`.
    pub open spec fn style_of(self, level: Level, element: ElementStyle) -> Style {
        self.for_level(level).style_of(element)
    }

    /// Whether the styles leave a terminal as it is.
    pub open spec fn plain_styles(self) -> bool {
        &&& terminal::is_plain(self.none)
        &&& forall|level: Level, element: ElementStyle|
            terminal::is_plain(#[trigger] self.style_of(level, element))
    }

    /// A stylesheet that leaves a terminal as it is: every style is the plain
    /// one.
    pub fn plain() -> (stylesheet: Self)
        ensures
            stylesheet.plain_styles(),
            forall|style: Style| #[trigger] terminal::is_plain(style) ==> style == stylesheet.none,
    {
        let none = Style::new();
        let styles = ElementStyles::uniform(none);
        Stylesheet {
            none,
            error: styles,
            warning: styles,
            info: styles,
            note: styles,
            help: styles,
        }
    }
}

impl ElementStyle {
    /// The terminal style of this element in a group of `level`.
    pub fn color_spec(self, level: Level, stylesheet: &Stylesheet) -> (style: Style)
        ensures
            style == stylesheet.style_of(level, self),
    {
        let styles = match level {
            Level::Error => &stylesheet.error,
            Level::Warning => &stylesheet.warning,
            Level::Info => &stylesheet.info,
            Level::Note => &stylesheet.note,
            Level::Help => &stylesheet.help,
        };
        match self {
            ElementStyle::MainHeaderMsg => styles.main_header_msg,
            ElementStyle::HeaderMsg => styles.header_msg,
            ElementStyle::LineAndColumn => styles.line_and_column,
            ElementStyle::LineNumber => styles.line_number,
            ElementStyle::Quotation => styles.quotation,
            ElementStyle::UnderlinePrimary => styles.underline_primary,
            ElementStyle::UnderlineSecondary => styles.underline_secondary,
            ElementStyle::LabelPrimary => styles.label_primary,
            ElementStyle::LabelSecondary => styles.label_secondary,
            ElementStyle::NoStyle => styles.no_style,
            ElementStyle::Level(Level::Error) => styles.error,
            ElementStyle::Level(Level::Warning) => styles.warning,
            ElementStyle::Level(Level::Info) => styles.info,
            ElementStyle::Level(Level::Note) => styles.note,
            ElementStyle::Level(Level::Help) => styles.help,
            ElementStyle::Addition => styles.addition,
            ElementStyle::Removal => styles.removal,
        }
    }
}

/// Each style belongs to one element: setting it changes that element to the new
/// style, and no other element.
pub proof fn law_each_element_has_its_own_style(
    styles: ElementStyles,
    style: Style,
    element: ElementStyle,
)
    ensures
        (ElementStyles { main_header_msg: style, ..styles }).style_of(element) == if element is MainHeaderMsg {
            style
        } else {
            styles.style_of(element)
        },
        (ElementStyles { header_msg: style, ..styles }).style_of(element) == if element is HeaderMsg {
            style
        } else {
            styles.style_of(element)
        },
        (ElementStyles { line_and_column: style, ..styles }).style_of(element) == if element is LineAndColumn {
            style
        } else {
            styles.style_of(element)
        },
        (ElementStyles { line_number: style, ..styles }).style_of(element) == if element is LineNumber {
            style
        } else {
            styles.style_of(element)
        },
        (ElementStyles { quotation: style, ..styles }).style_of(element) == if element is Quotation {
            style
        } else {
            styles.style_of(element)
        },
        (ElementStyles { underline_primary: style, ..styles }).style_of(element) == if element is UnderlinePrimary {
            style
        } else {
            styles.style_of(element)
        },
        (ElementStyles { underline_secondary: style, ..styles }).style_of(element) == if element is UnderlineSecondary {
            style
        } else {
            styles.style_of(element)
        },
        (ElementStyles { label_primary: style, ..styles }).style_of(element) == if element is LabelPrimary {
            style
        } else {
            styles.style_of(element)
        },
        (ElementStyles { label_secondary: style, ..styles }).style_of(element) == if element is LabelSecondary {
            style
        } else {
            styles.style_of(element)
        },
        (ElementStyles { no_style: style, ..styles }).style_of(element) == if element is NoStyle {
            style
        } else {
            styles.style_of(element)
        },
        (ElementStyles { error: style, ..styles }).style_of(element) == if element == ElementStyle::Level(Level::Error) {
            style
        } else {
            styles.style_of(element)
        },
        (ElementStyles { warning: style, ..styles }).style_of(element) == if element == ElementStyle::Level(Level::Warning) {
            style
        } else {
            styles.style_of(element)
        },
        (ElementStyles { info: style, ..styles }).style_of(element) == if element == ElementStyle::Level(Level::Info) {
            style
        } else {
            styles.style_of(element)
        },
        (ElementStyles { note: style, ..styles }).style_of(element) == if element == ElementStyle::Level(Level::Note) {
            style
        } else {
            styles.style_of(element)
        },
        (ElementStyles { help: style, ..styles }).style_of(element) == if element == ElementStyle::Level(Level::Help) {
            style
        } else {
            styles.style_of(element)
        },
        (ElementStyles { addition: style, ..styles }).style_of(element) == if element is Addition {
            style
        } else {
            styles.style_of(element)
        },
        (ElementStyles { removal: style, ..styles }).style_of(element) == if element is Removal {
            style
        } else {
            styles.style_of(element)
        },
{
}

/// Each level has its own styles: replacing those of one level changes what the
/// elements resolve to at that level, and at no other.  The style that lines
/// start from is not the style of any element.
pub proof fn law_each_level_has_its_own_styles(
    stylesheet: Stylesheet,
    styles: ElementStyles,
    none: Style,
    level: Level,
    element: ElementStyle,
)
    ensures
        (Stylesheet { error: styles, ..stylesheet }).style_of(level, element) == if level is Error {
            styles.style_of(element)
        } else {
            stylesheet.style_of(level, element)
        },
        (Stylesheet { warning: styles, ..stylesheet }).style_of(level, element) == if level is Warning {
            styles.style_of(element)
        } else {
            stylesheet.style_of(level, element)
        },
        (Stylesheet { info: styles, ..stylesheet }).style_of(level, element) == if level is Info {
            styles.style_of(element)
        } else {
            stylesheet.style_of(level, element)
        },
        (Stylesheet { note: styles, ..stylesheet }).style_of(level, element) == if level is Note {
            styles.style_of(element)
        } else {
            stylesheet.style_of(level, element)
        },
        (Stylesheet { help: styles, ..stylesheet }).style_of(level, element) == if level is Help {
            styles.style_of(element)
        } else {
            stylesheet.style_of(level, element)
        },
        (Stylesheet { none, ..stylesheet }).style_of(level, element) == stylesheet.style_of(
            level,
            element,
        ),
{
}

} // verus!
