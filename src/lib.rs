use vstd::prelude::*;

pub mod laws;
pub mod line;
pub mod parse;
pub mod render;
pub mod text;
pub mod widths;

pub use line::Line;
pub use parse::parse_file_contents;
pub use render::generate_aligned_output;
pub use widths::calculate_max_widths;

use parse::parse;
use render::render;
use widths::max_widths;

verus! {

/// Why a model file could not be formatted.
#[derive(Clone, Debug, PartialEq)]
pub enum FormatError {
    /// A record line with a field count that the format does not accept,
    /// with the line's text. Records here may have any number of fields, so
    /// formatting never fails with it.
    UnexpectedFieldCount(String),
}

/// The formatted text: the lines parsed, measured, and written out aligned.
pub open spec fn format_text(s: Seq<char>) -> Seq<char> {
    let ls = parse(s);
    render(ls, max_widths(ls))
}

/// Formats the whole text of a model file: the fields of its records are
/// aligned in columns, while comments and blank lines pass through trimmed.
pub fn format_model_file(contents: &str) -> (r: Result<String, FormatError>)
    ensures
        r is Ok,
        r matches Ok(out) && out@ == format_text(contents@),
{
    let lines = parse_file_contents(contents);
    let widths = calculate_max_widths(lines.as_slice());
    Ok(generate_aligned_output(lines.as_slice(), widths.as_slice()))
}

} // verus!
