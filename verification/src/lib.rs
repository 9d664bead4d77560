//! Render rows of strings as a GitHub Flavored Markdown table.
//!
//! The output is source text for a Markdown parser to read, not box drawing
//! for a terminal. Every cell is wrapped in pipes and one space of padding,
//! every column is padded to a common width, the header row is followed by a
//! delimiter row, and each column carries the alignment the caller asked for.
//!
//! Cell content that would break the table is repaired instead of passed
//! through: a `|` becomes `\|` and a line break becomes `<br>`.
//! [`escape_cell`] states the exact rule. Nothing else is transformed.
//!
//! Rendering cannot fail. There is no error type and no fallible entry point.
//!
//! The modules hold what the contracts speak of: [`escape`] the escaping
//! rule, [`render`] the text of a table as a function of its cells, widths and
//! alignments, [`table`] the table and its model, and [`laws`] what holds of
//! every rendered table.

pub mod debug;
pub mod escape;
pub mod laws;
pub mod render;
mod sealed;
pub mod table;
pub mod text;

pub use crate::escape::escape_cell;
pub use crate::table::{Alignment, AlignmentList, CharCount, RowCells, Table};
