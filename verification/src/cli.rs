//! The command-line surface: which command runs, and the style options in
//! force, together with their translation into a style descriptor.

use vstd::prelude::*;

verus! {

use crate::parser::model;
use crate::parser::model::JsonStyle;

/// Which command runs, and on which folders.
#[derive(Debug)]
pub enum Commands {
    /// Rewrite every file under the folders in the configured style.
    Format { folders: Vec<String> },
    /// Check the files under the folders against the configured style and
    /// against each other.
    Lint { folders: Vec<String> },
}

/// The comparator the required key order uses.
#[derive(Clone, Copy, PartialEq, Eq, Structural, Debug)]
pub enum SortAlgorithm {
    /// Compare keys naturally: digit runs by their numeric value.
    Natural,
    /// Compare keys lexicographically.
    Default,
    /// Leave the key order unchecked.
    IGNORE,
}

/// The direction of the required key order.
#[derive(Clone, Copy, PartialEq, Eq, Structural, Debug)]
pub enum SortOrder {
    Asc,
    Desc,
}

/// The required line ending.
#[derive(Clone, Copy, PartialEq, Eq, Structural, Debug)]
pub enum LineEnding {
    CRLF,
    LF,
    NONE,
    ANY,
    IGNORE,
}

/// The required indentation unit.
#[derive(Clone, Copy, PartialEq, Eq, Structural, Debug)]
pub enum Indentation {
    TAB,
    TWO,
    FOUR,
    IGNORE,
}

/// All the options of one invocation.
#[derive(Debug)]
pub struct Cli {
    pub command: Commands,
    pub algorithm: SortAlgorithm,
    pub order: SortOrder,
    pub line_endings: LineEnding,
    pub indent: Indentation,
}

/// Whether `style` is the descriptor the options ask for: a space after
/// each colon, the chosen indentation unit, and the chosen line-ending,
/// order and comparator rules.
pub open spec fn style_of_cli(cli: Cli, style: JsonStyle) -> bool {
    match style {
        JsonStyle::STYLED { line_endings, indentation, post_colon, sort_algorithm, order } => {
            &&& (post_colon matches Some(p) && p@ == " "@)
            &&& match cli.indent {
                Indentation::TAB => indentation matches Some(u) && u@ == "\t"@,
                Indentation::TWO => indentation matches Some(u) && u@ == "  "@,
                Indentation::FOUR => indentation matches Some(u) && u@ == "    "@,
                Indentation::IGNORE => indentation is None,
            }
            &&& line_endings == match cli.line_endings {
                LineEnding::CRLF => model::LineEnding::CRLF,
                LineEnding::LF => model::LineEnding::LF,
                LineEnding::NONE => model::LineEnding::NONE,
                LineEnding::ANY => model::LineEnding::ANY,
                LineEnding::IGNORE => model::LineEnding::IGNORE,
            }
            &&& order == match cli.order {
                SortOrder::Asc => model::SortOrder::ASC,
                SortOrder::Desc => model::SortOrder::DESC,
            }
            &&& sort_algorithm == match cli.algorithm {
                SortAlgorithm::Natural => model::SortAlgorithm::NATURAL,
                SortAlgorithm::Default => model::SortAlgorithm::NORMAL,
                SortAlgorithm::IGNORE => model::SortAlgorithm::NONE,
            }
        },
        JsonStyle::IGNORE => false,
    }
}

/// Translate the options into the style descriptor they ask for.
pub fn cli_to_style(cli: &Cli) -> (style: JsonStyle)
    ensures
        style_of_cli(*cli, style),
{
    JsonStyle::STYLED {
        post_colon: Some(" ".to_owned()),
        indentation: match cli.indent {
            Indentation::TAB => Some("\t".to_owned()),
            Indentation::TWO => Some("  ".to_owned()),
            Indentation::FOUR => Some("    ".to_owned()),
            Indentation::IGNORE => None,
        },
        line_endings: match cli.line_endings {
            LineEnding::CRLF => model::LineEnding::CRLF,
            LineEnding::LF => model::LineEnding::LF,
            LineEnding::NONE => model::LineEnding::NONE,
            LineEnding::ANY => model::LineEnding::ANY,
            LineEnding::IGNORE => model::LineEnding::IGNORE,
        },
        order: match cli.order {
            SortOrder::Asc => model::SortOrder::ASC,
            SortOrder::Desc => model::SortOrder::DESC,
        },
        sort_algorithm: match cli.algorithm {
            SortAlgorithm::Natural => model::SortAlgorithm::NATURAL,
            SortAlgorithm::Default => model::SortAlgorithm::NORMAL,
            SortAlgorithm::IGNORE => model::SortAlgorithm::NONE,
        },
    }
}

} // verus!
