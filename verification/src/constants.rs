//! ANSI escape sequences used when highlighting.

use vstd::prelude::*;

verus! {

/// Red
pub const OLD: &'static str = "\x1b[31m";

/// Green
pub const NEW: &'static str = "\x1b[32m";

/// Inverse yellow
pub const PARSE_ERROR: &'static str = "\x1b[33m\x1b[7m";

pub const INVERSE_VIDEO: &'static str = "\x1b[7m";

pub const NO_INVERSE_VIDEO: &'static str = "\x1b[27m";

/// Faint
pub const NO_EOF_NEWLINE_COLOR: &'static str = "\x1b[2m";

pub const BOLD: &'static str = "\x1b[1m";

pub const FAINT: &'static str = "\x1b[2m";

/// Neither bold nor faint
pub const NORMAL_INTENSITY: &'static str = "\x1b[22m";

pub const YELLOW: &'static str = "\x1b[33m";

pub const GREEN: &'static str = "\x1b[32m";

pub const CYAN: &'static str = "\x1b[36m";

pub const RED: &'static str = "\x1b[31m";

/// The terminal's own foreground color
pub const DEFAULT_COLOR: &'static str = "\x1b[39m";

/// Dark blue background to the end of the line
pub const BLUE_TO_END_OF_LINE: &'static str = "\x1b[48;5;17m\x1b[0K";

pub const NORMAL: &'static str = "\x1b[0m";

} // verus!
